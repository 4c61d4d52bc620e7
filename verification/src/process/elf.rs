//! ELF executables: reading their headers and planning how their segments are mapped.
use vstd::prelude::*;
use crate::config::PAGE_SIZE;
use crate::errno::{Errno, EResult};
use crate::mem::map::{DENYWRITE, FIXED, POPULATE, PRIVATE};
use crate::mem::prot;
use vstd::arithmetic::power2::*;

verus! {

/// ELF header magic.
pub const ELF_MAGIC: [u8; 4] = [0x7f, 0x45, 0x4c, 0x46];
/// The version of the ELF specification used.
pub const ELF_VERSION: u8 = 1;
/// The machine this kernel runs on (RISC-V).
pub const ELF_MACHINE: u16 = 243;

pub const AT_NULL: usize = 0;
pub const AT_IGNORE: usize = 1;
pub const AT_EXECFD: usize = 2;
pub const AT_PHDR: usize = 3;
pub const AT_PHENT: usize = 4;
pub const AT_PHNUM: usize = 5;
pub const AT_PAGESZ: usize = 6;
pub const AT_BASE: usize = 7;
pub const AT_FLAGS: usize = 8;
pub const AT_ENTRY: usize = 9;
pub const AT_UID: usize = 11;
pub const AT_EUID: usize = 12;
pub const AT_GID: usize = 13;
pub const AT_EGID: usize = 14;

/// Shared object (position-independent executable).
pub const ET_DYN: u16 = 3;
/// Loadable segment.
pub const PT_LOAD: u32 = 1;
/// Program interpreter.
pub const PT_INTERP: u32 = 3;
/// The program header table itself.
pub const PT_PHDR: u32 = 6;
/// Segment is executable.
pub const PF_X: u32 = 1;
/// Segment is writable.
pub const PF_W: u32 = 2;
/// Segment is readable.
pub const PF_R: u32 = 4;

/// Size of the ELF file header.
pub const EHDR_SIZE: usize = 64;
/// Size of one program header.
pub const PHDR_SIZE: usize = 56;

/// Auxiliary vector entry.
#[derive(Clone, Copy, Debug, PartialEq, Eq, Structural)]
pub struct AuxvEntry {
    pub type_: usize,
    pub value: usize,
}

/// Header that identifies a file as an ELF file.
#[derive(Clone, Copy, Debug)]
pub struct ElfIdent {
    /// Must contain [`ELF_MAGIC`].
    pub magic: [u8; 4],
    /// File class; 1 for 32-bit, 2 for 64-bit.
    pub class: u8,
    /// File data encoding; 1 for little-endian, 2 for big-endian.
    pub endian: u8,
    /// Must contain [`ELF_VERSION`].
    pub version: u8,
    /// Operating system / ABI identification.
    pub osabi: u8,
    /// ABI version.
    pub abi_version: u8,
    /// Padding.
    pub _padding0: [u8; 7],
}

/// The 64-bit ELF file header.
#[derive(Clone, Copy, Debug)]
pub struct ElfHeader {
    pub ident: ElfIdent,
    pub type_: u16,
    pub machine: u16,
    pub version: u32,
    pub entry: u64,
    pub phoff: u64,
    pub shoff: u64,
    pub flags: u32,
    pub ehsize: u16,
    pub phentsize: u16,
    pub phnum: u16,
    pub shentsize: u16,
    pub shnum: u16,
    pub shstrndx: u16,
}

/// A 64-bit ELF program header.
#[derive(Clone, Copy, Debug, PartialEq, Eq, Structural)]
pub struct ProgHeader {
    pub type_: u32,
    pub flags: u32,
    pub offset: u64,
    pub vaddr: u64,
    pub paddr: u64,
    pub file_size: u64,
    pub mem_size: u64,
    pub align: u64,
}

/// The little-endian number in the `n` bytes of `s` from `at`.
pub open spec fn le_value(s: Seq<u8>, at: int, n: nat) -> int
    decreases n,
{
    if n == 0 {
        0
    } else {
        s[at] + 256 * le_value(s, at + 1, (n - 1) as nat)
    }
}

proof fn lemma_le_value_bound(s: Seq<u8>, at: int, n: nat)
    ensures
        0 <= le_value(s, at, n) < pow2(8 * n),
    decreases n,
{
    lemma_pow2_pos(8 * n);
    if n > 0 {
        lemma_le_value_bound(s, at + 1, (n - 1) as nat);
        lemma_pow2_adds(8, 8 * (n - 1) as nat);
        lemma2_to64();
        assert(8 * n == 8 + 8 * (n - 1) as nat);
    }
}

/// Read the little-endian number in the `n` bytes of `b` from `at`.
fn read_le(b: &[u8], at: usize, n: usize) -> (r: u64)
    requires
        n <= 8,
        at + n <= b@.len(),
    ensures
        r == le_value(b@, at as int, n as nat),
{
    let len = b.len();
    let mut v: u64 = 0;
    let mut k: usize = n;
    while k > 0
        invariant
            b@.len() == len,
            k <= n <= 8,
            at + n <= b@.len(),
            v == le_value(b@, (at + k) as int, (n - k) as nat),
        decreases k,
    {
        proof {
            lemma_le_value_bound(b@, (at + k) as int, (n - k) as nat);
            crate::mem::arith::lemma_pow2_mono(8 * (n - k) as nat, 56);
            lemma2_to64();
            lemma2_to64_rest();
            assert(v * 256 + 255 <= u64::MAX) by (nonlinear_arith)
                requires
                    v < 0x100000000000000,
            ;
        }
        k = k - 1;
        v = v * 256 + b[at + k] as u64;
    }
    v
}

/// The identification header at the start of `b`.
pub open spec fn ident_of(b: Seq<u8>) -> ElfIdent {
    ElfIdent {
        magic: [b[0], b[1], b[2], b[3]],
        class: b[4],
        endian: b[5],
        version: b[6],
        osabi: b[7],
        abi_version: b[8],
        _padding0: [b[9], b[10], b[11], b[12], b[13], b[14], b[15]],
    }
}

/// The file header at the start of `b`.
pub open spec fn header_of(b: Seq<u8>) -> ElfHeader {
    ElfHeader {
        ident: ident_of(b),
        type_: le_value(b, 16, 2) as u16,
        machine: le_value(b, 18, 2) as u16,
        version: le_value(b, 20, 4) as u32,
        entry: le_value(b, 24, 8) as u64,
        phoff: le_value(b, 32, 8) as u64,
        shoff: le_value(b, 40, 8) as u64,
        flags: le_value(b, 48, 4) as u32,
        ehsize: le_value(b, 52, 2) as u16,
        phentsize: le_value(b, 54, 2) as u16,
        phnum: le_value(b, 56, 2) as u16,
        shentsize: le_value(b, 58, 2) as u16,
        shnum: le_value(b, 60, 2) as u16,
        shstrndx: le_value(b, 62, 2) as u16,
    }
}

/// The program header at the start of `b`.
pub open spec fn phdr_of(b: Seq<u8>) -> ProgHeader {
    ProgHeader {
        type_: le_value(b, 0, 4) as u32,
        flags: le_value(b, 4, 4) as u32,
        offset: le_value(b, 8, 8) as u64,
        vaddr: le_value(b, 16, 8) as u64,
        paddr: le_value(b, 24, 8) as u64,
        file_size: le_value(b, 32, 8) as u64,
        mem_size: le_value(b, 40, 8) as u64,
        align: le_value(b, 48, 8) as u64,
    }
}

/// Little-endian numbers: one more byte adds that byte times 256 to the power of the bytes
/// before it, so the last byte is the most significant; `n` bytes give less than `256^n`.
pub proof fn lemma_le_value_high_byte(s: Seq<u8>, at: int, n: nat)
    ensures
        le_value(s, at, n + 1) == le_value(s, at, n) + s[at + n] * vstd::arithmetic::power::pow(256, n),
    decreases n,
{
    vstd::arithmetic::power::lemma_pow0(256);
    if n == 0 {
        assert(le_value(s, at + 1, 0) == 0);
        assert(le_value(s, at, 1) == s[at] + 256 * le_value(s, at + 1, 0));
    } else {
        lemma_le_value_high_byte(s, at + 1, (n - 1) as nat);
        vstd::arithmetic::power::lemma_pow_adds(256, 1, (n - 1) as nat);
        vstd::arithmetic::power::lemma_pow1(256);
        let p = vstd::arithmetic::power::pow(256, (n - 1) as nat);
        assert(le_value(s, at, n + 1) == s[at] + 256 * le_value(s, at + 1, n));
        assert(le_value(s, at, n) == s[at] + 256 * le_value(s, at + 1, (n - 1) as nat));
        assert(256 * (le_value(s, at + 1, (n - 1) as nat) + s[at + n] * p) == 256 * le_value(s, at + 1, (n - 1) as nat)
            + s[at + n] * (256 * p)) by (nonlinear_arith);
        assert(at + 1 + (n - 1) == at + n);
        assert(vstd::arithmetic::power::pow(256, n) == 256 * p);
    }
}

/// The fields of a 64-bit ELF file header at their standard byte offsets and widths,
/// little-endian: type at 16 (2 bytes), machine 18 (2), version 20 (4), entry 24 (8), program
/// header offset 32 (8), section header offset 40 (8), flags 48 (4), header size 52 (2),
/// program header entry size 54 (2) and count 56 (2), section header entry size 58 (2) and
/// count 60 (2), section name index 62 (2); the identification is its first 16 bytes.
pub proof fn lemma_header_layout(b: Seq<u8>)
    ensures
        header_of(b).ident.magic == [b[0], b[1], b[2], b[3]] && header_of(b).ident.class == b[4] && header_of(b).ident.endian
            == b[5],
        header_of(b).type_ == le_value(b, 16, 2) as u16 && header_of(b).machine == le_value(b, 18, 2) as u16,
        header_of(b).version == le_value(b, 20, 4) as u32 && header_of(b).entry == le_value(b, 24, 8) as u64,
        header_of(b).phoff == le_value(b, 32, 8) as u64 && header_of(b).shoff == le_value(b, 40, 8) as u64,
        header_of(b).flags == le_value(b, 48, 4) as u32 && header_of(b).ehsize == le_value(b, 52, 2) as u16,
        header_of(b).phentsize == le_value(b, 54, 2) as u16 && header_of(b).phnum == le_value(b, 56, 2) as u16,
        header_of(b).shentsize == le_value(b, 58, 2) as u16 && header_of(b).shnum == le_value(b, 60, 2) as u16,
        header_of(b).shstrndx == le_value(b, 62, 2) as u16,
{
}

/// The fields of a 64-bit ELF program header at their standard byte offsets and widths,
/// little-endian: type at 0 (4 bytes), flags 4 (4), file offset 8 (8), virtual address 16 (8),
/// physical address 24 (8), size in the file 32 (8), size in memory 40 (8), alignment 48 (8).
pub proof fn lemma_phdr_layout(b: Seq<u8>)
    ensures
        phdr_of(b).type_ == le_value(b, 0, 4) as u32 && phdr_of(b).flags == le_value(b, 4, 4) as u32,
        phdr_of(b).offset == le_value(b, 8, 8) as u64 && phdr_of(b).vaddr == le_value(b, 16, 8) as u64,
        phdr_of(b).paddr == le_value(b, 24, 8) as u64 && phdr_of(b).file_size == le_value(b, 32, 8) as u64,
        phdr_of(b).mem_size == le_value(b, 40, 8) as u64 && phdr_of(b).align == le_value(b, 48, 8) as u64,
{
}

impl ElfHeader {
    /// Read a file header from its bytes; `ENOEXEC` if there are too few.
    pub fn parse(b: &[u8]) -> (r: EResult<ElfHeader>)
        ensures
            b@.len() < EHDR_SIZE ==> r == Err::<ElfHeader, Errno>(Errno::ENOEXEC),
            b@.len() >= EHDR_SIZE ==> r == Ok::<ElfHeader, Errno>(header_of(b@)),
    {
        if b.len() < EHDR_SIZE {
            return Err(Errno::ENOEXEC);
        }
        let ident = ElfIdent {
            magic: [b[0], b[1], b[2], b[3]],
            class: b[4],
            endian: b[5],
            version: b[6],
            osabi: b[7],
            abi_version: b[8],
            _padding0: [b[9], b[10], b[11], b[12], b[13], b[14], b[15]],
        };
        Ok(ElfHeader {
            ident,
            type_: read_le(b, 16, 2) as u16,
            machine: read_le(b, 18, 2) as u16,
            version: read_le(b, 20, 4) as u32,
            entry: read_le(b, 24, 8),
            phoff: read_le(b, 32, 8),
            shoff: read_le(b, 40, 8),
            flags: read_le(b, 48, 4) as u32,
            ehsize: read_le(b, 52, 2) as u16,
            phentsize: read_le(b, 54, 2) as u16,
            phnum: read_le(b, 56, 2) as u16,
            shentsize: read_le(b, 58, 2) as u16,
            shnum: read_le(b, 60, 2) as u16,
            shstrndx: read_le(b, 62, 2) as u16,
        })
    }

    /// A 64-bit little-endian executable of the current ELF version for this machine.
    pub open spec fn valid(&self) -> bool {
        &&& self.ident.magic@ == seq![0x7fu8, 0x45u8, 0x4cu8, 0x46u8]
        &&& self.ident.version == ELF_VERSION
        &&& self.ident.class == 2
        &&& self.ident.endian == 1
        &&& self.version == ELF_VERSION as u32
        &&& self.machine == ELF_MACHINE
    }

    /// Validate the header.
    pub fn is_valid(&self) -> (r: bool)
        ensures
            r == self.valid(),
    {
        let m = self.ident.magic;
        let r = m[0] == 0x7f && m[1] == 0x45 && m[2] == 0x4c && m[3] == 0x46 && self.ident.version == ELF_VERSION
            && self.ident.class == 2 && self.ident.endian == 1 && self.version == ELF_VERSION as u32
            && self.machine == ELF_MACHINE;
        proof {
            if m[0] == 0x7f && m[1] == 0x45 && m[2] == 0x4c && m[3] == 0x46 {
                assert(m@ =~= seq![0x7fu8, 0x45u8, 0x4cu8, 0x46u8]);
            }
        }
        r
    }
}

impl ProgHeader {
    /// Read a program header from its bytes; `ENOEXEC` if there are too few.
    pub fn parse(b: &[u8]) -> (r: EResult<ProgHeader>)
        ensures
            b@.len() < PHDR_SIZE ==> r == Err::<ProgHeader, Errno>(Errno::ENOEXEC),
            b@.len() >= PHDR_SIZE ==> r == Ok::<ProgHeader, Errno>(phdr_of(b@)),
    {
        if b.len() < PHDR_SIZE {
            return Err(Errno::ENOEXEC);
        }
        Ok(ProgHeader {
            type_: read_le(b, 0, 4) as u32,
            flags: read_le(b, 4, 4) as u32,
            offset: read_le(b, 8, 8),
            vaddr: read_le(b, 16, 8),
            paddr: read_le(b, 24, 8),
            file_size: read_le(b, 32, 8),
            mem_size: read_le(b, 40, 8),
            align: read_le(b, 48, 8),
        })
    }
}

/// Round up to whole pages, if that fits a `usize`.
pub open spec fn page_ceil(x: int) -> int {
    (x + PAGE_SIZE - 1) / PAGE_SIZE as int * PAGE_SIZE
}

/// Protection flags for a segment: writable implies readable.
pub open spec fn segment_prot(flags: u32) -> u8 {
    (if flags & PF_R != 0 { prot::READ } else { 0u8 }) | (if flags & PF_W != 0 { prot::WRITE | prot::READ } else { 0u8 }) | (
    if flags & PF_X != 0 { prot::EXEC } else { 0u8 })
}

/// How one loadable segment is mapped: first `start..mem_end` with anonymous memory, then
/// `start..file_end` with the file from `file_offset`; the bytes of `start..vaddr` and
/// `end_vaddr..file_end` are zeroed, and finally `start..mem_end` gets protection `prot`.
#[derive(Clone, Copy, Debug, PartialEq, Eq, Structural)]
pub struct SegmentPlan {
    pub start: usize,
    pub vaddr: usize,
    pub end_vaddr: usize,
    pub file_end: usize,
    pub mem_end: usize,
    pub file_offset: u64,
    pub prot: u8,
}

/// Mapping flags of the anonymous part of a segment.
pub const SEGMENT_ANON_FLAGS: u32 = 0x12;
/// Mapping flags of the file part of a segment.
pub const SEGMENT_FILE_FLAGS: u32 = 0x52;

/// The plan for mapping segment `phdr` at `load_offset`, or `None` where an address does not
/// fit or the file offset does not reach back to the segment's first page.
pub open spec fn segment_plan(phdr: ProgHeader, load_offset: usize) -> Option<SegmentPlan> {
    let vaddr = (phdr.vaddr as usize).wrapping_add(load_offset) as int;
    let start = vaddr / PAGE_SIZE as int * PAGE_SIZE;
    let end_vaddr = vaddr + phdr.file_size as usize;
    let file_end = page_ceil(vaddr + phdr.file_size as usize);
    let mem_end = page_ceil(vaddr + phdr.mem_size as usize);
    let file_offset = phdr.offset - (vaddr - start);
    if file_end > usize::MAX || mem_end > usize::MAX || file_offset < 0 {
        None
    } else {
        Some(
            SegmentPlan {
                start: start as usize,
                vaddr: vaddr as usize,
                end_vaddr: end_vaddr as usize,
                file_end: file_end as usize,
                mem_end: mem_end as usize,
                file_offset: file_offset as u64,
                prot: segment_prot(phdr.flags),
            },
        )
    }
}

/// Round `x` up to whole pages, if that fits.
fn ceil_page(x: usize) -> (r: Option<usize>)
    ensures
        page_ceil(x as int) <= usize::MAX ==> r == Some(page_ceil(x as int) as usize),
        page_ceil(x as int) > usize::MAX ==> r is None,
{
    let pages = x / PAGE_SIZE + if x % PAGE_SIZE != 0 { 1 } else { 0 };
    assert(pages * PAGE_SIZE == page_ceil(x as int)) by (nonlinear_arith)
        requires
            pages == x / 4096 + if x % 4096 != 0 { 1int } else { 0 },
            PAGE_SIZE == 4096,
    ;
    if pages > usize::MAX / PAGE_SIZE {
        assert(pages * PAGE_SIZE > usize::MAX) by (nonlinear_arith)
            requires
                pages > usize::MAX / 4096,
                PAGE_SIZE == 4096,
        ;
        None
    } else {
        assert(pages * PAGE_SIZE <= usize::MAX) by (nonlinear_arith)
            requires
                pages <= usize::MAX / 4096,
                PAGE_SIZE == 4096,
        ;
        Some(pages * PAGE_SIZE)
    }
}

/// Compute how segment `phdr` is mapped at `load_offset`.
pub fn plan_segment(phdr: &ProgHeader, load_offset: usize) -> (r: EResult<SegmentPlan>)
    ensures
        match segment_plan(*phdr, load_offset) {
            Some(p) => r == Ok::<SegmentPlan, Errno>(p),
            None => r == Err::<SegmentPlan, Errno>(Errno::ENOEXEC),
        },
{
    let vaddr = (phdr.vaddr as usize).wrapping_add(load_offset);
    let start = vaddr / PAGE_SIZE * PAGE_SIZE;
    let file_size = phdr.file_size as usize;
    let mem_size = phdr.mem_size as usize;
    if vaddr > usize::MAX - file_size || vaddr > usize::MAX - mem_size {
        proof {
            assert(page_ceil(vaddr + file_size) >= vaddr + file_size) by (nonlinear_arith)
                requires
                    PAGE_SIZE == 4096,
            ;
            assert(page_ceil(vaddr + mem_size) >= vaddr + mem_size) by (nonlinear_arith)
                requires
                    PAGE_SIZE == 4096,
            ;
        }
        return Err(Errno::ENOEXEC);
    }
    let end_vaddr = vaddr + file_size;
    let file_end = match ceil_page(vaddr + file_size) {
        Some(e) => e,
        None => {
            return Err(Errno::ENOEXEC);
        },
    };
    let mem_end = match ceil_page(vaddr + mem_size) {
        Some(e) => e,
        None => {
            return Err(Errno::ENOEXEC);
        },
    };
    assert(start <= vaddr) by (nonlinear_arith)
        requires
            start == vaddr / 4096 * 4096,
            PAGE_SIZE == 4096,
    ;
    let lead = (vaddr - start) as u64;
    if phdr.offset < lead {
        return Err(Errno::ENOEXEC);
    }
    let fr: u8 = if phdr.flags & PF_R != 0 { prot::READ } else { 0 };
    let fw: u8 = if phdr.flags & PF_W != 0 { prot::WRITE | prot::READ } else { 0 };
    let fx: u8 = if phdr.flags & PF_X != 0 { prot::EXEC } else { 0 };
    Ok(SegmentPlan {
        start,
        vaddr,
        end_vaddr,
        file_end,
        mem_end,
        file_offset: phdr.offset - lead,
        prot: fr | fw | fx,
    })
}

/// How a segment is mapped in one step, straight from the file and populated at once:
/// `start..end` from file offset `file_offset` with protection `prot`.
#[derive(Clone, Copy, Debug, PartialEq, Eq, Structural)]
pub struct DirectPlan {
    pub start: usize,
    pub end: usize,
    pub file_offset: u64,
    pub prot: u8,
}

/// Mapping flags of a segment mapped in one step.
pub const SEGMENT_DIRECT_FLAGS: u32 = 0x8052;

/// The plan for mapping segment `phdr` in one step, if its address and offset agree within a
/// page and its end fits.
pub open spec fn direct_plan(phdr: ProgHeader, load_offset: usize) -> Option<DirectPlan> {
    let vaddr = (phdr.vaddr as usize).wrapping_add(load_offset) as int;
    let end = vaddr + phdr.mem_size as usize;
    if vaddr % PAGE_SIZE as int != (phdr.offset as usize) % PAGE_SIZE || end > usize::MAX {
        None
    } else {
        Some(
            DirectPlan {
                start: (vaddr / PAGE_SIZE as int * PAGE_SIZE) as usize,
                end: end as usize,
                file_offset: (phdr.offset / PAGE_SIZE as u64 * PAGE_SIZE as u64) as u64,
                prot: prot::READ | (if phdr.flags & PF_W != 0 { prot::WRITE } else { 0u8 }) | (if phdr.flags & PF_X
                    != 0 { prot::EXEC } else { 0u8 }),
            },
        )
    }
}

/// Compute how segment `phdr` is mapped in one step at `load_offset`.
pub fn plan_segment_direct(phdr: &ProgHeader, load_offset: usize) -> (r: EResult<DirectPlan>)
    ensures
        match direct_plan(*phdr, load_offset) {
            Some(p) => r == Ok::<DirectPlan, Errno>(p),
            None => r == Err::<DirectPlan, Errno>(Errno::ENOEXEC),
        },
{
    let vaddr = (phdr.vaddr as usize).wrapping_add(load_offset);
    let aligned_vaddr = vaddr / PAGE_SIZE * PAGE_SIZE;
    let mem_size = phdr.mem_size as usize;
    if vaddr % PAGE_SIZE != (phdr.offset as usize) % PAGE_SIZE {
        return Err(Errno::ENOEXEC);
    }
    if vaddr > usize::MAX - mem_size {
        return Err(Errno::ENOEXEC);
    }
    assert(phdr.offset / 4096 * 4096 <= phdr.offset) by (nonlinear_arith);
    let aligned_offset = phdr.offset / (PAGE_SIZE as u64) * (PAGE_SIZE as u64);
    let w: u8 = if phdr.flags & PF_W != 0 { prot::WRITE } else { 0 };
    let x: u8 = if phdr.flags & PF_X != 0 { prot::EXEC } else { 0 };
    Ok(DirectPlan { start: aligned_vaddr, end: vaddr + mem_size, file_offset: aligned_offset, prot: prot::READ | w | x })
}

/// A segment's protection in the stepwise plan: readable (1) when its flags say readable (4)
/// or writable (2), writable (2) exactly when they say writable (2), executable (4) exactly
/// when they say executable (1), and nothing more.
pub proof fn lemma_segment_prot_bits(flags: u32)
    ensures
        (segment_prot(flags) & 1 != 0) == (flags & 4 != 0 || flags & 2 != 0),
        (segment_prot(flags) & 2 != 0) == (flags & 2 != 0),
        (segment_prot(flags) & 4 != 0) == (flags & 1 != 0),
        segment_prot(flags) & 0xf8 == 0,
{
    let p = segment_prot(flags);
    assert(p == (if flags & 4 != 0 { 1u8 } else { 0u8 }) | (if flags & 2 != 0 { 2u8 | 1u8 } else { 0u8 }) | (if flags & 1
        != 0 { 4u8 } else { 0u8 }));
    assert({
        &&& (p & 1 != 0) == (flags & 4 != 0 || flags & 2 != 0)
        &&& (p & 2 != 0) == (flags & 2 != 0)
        &&& (p & 4 != 0) == (flags & 1 != 0)
        &&& p & 0xf8 == 0
    }) by (bit_vector)
        requires
            p == (if flags & 4 != 0 { 1u8 } else { 0u8 }) | (if flags & 2 != 0 { 2u8 | 1u8 } else { 0u8 }) | (if flags & 1
                != 0 { 4u8 } else { 0u8 }),
    ;
}

/// A segment mapped in one step is mapped from the page that holds its start, at the file
/// offset of the page that holds its data, to the end of its size in memory, so that each of
/// its bytes lands on the byte of the file it comes from; it is readable (1), writable (2)
/// exactly when its flags say writable (2), executable (4) exactly when they say executable
/// (1), and nothing more. It is refused exactly when its address and file offset sit at
/// different places in their pages or its end does not fit.
pub proof fn lemma_direct_plan_law(phdr: ProgHeader, load_offset: usize)
    ensures
        ({
            let v = (phdr.vaddr as usize).wrapping_add(load_offset) as int;
            direct_plan(phdr, load_offset) is None <==> (v % 4096 != (phdr.offset as usize) % 4096 || v + phdr.mem_size as usize
                > usize::MAX)
        }),
        direct_plan(phdr, load_offset) matches Some(p) ==> {
            let v = (phdr.vaddr as usize).wrapping_add(load_offset) as int;
            &&& p.prot & 1 != 0
            &&& (p.prot & 2 != 0) == (phdr.flags & 2 != 0)
            &&& (p.prot & 4 != 0) == (phdr.flags & 1 != 0)
            &&& p.prot & 0xf8 == 0
            &&& p.start % 4096 == 0
            &&& p.start <= v < p.start + 4096
            &&& p.end == v + phdr.mem_size as usize
            &&& p.file_offset % 4096 == 0
            &&& p.file_offset <= phdr.offset
            &&& phdr.offset - p.file_offset == v - p.start
        },
{
    let v = (phdr.vaddr as usize).wrapping_add(load_offset) as int;
    if let Some(p) = direct_plan(phdr, load_offset) {
        let f = phdr.flags;
        let pr = p.prot;
        assert(pr == 1u8 | (if f & 2 != 0 { 2u8 } else { 0u8 }) | (if f & 1 != 0 { 4u8 } else { 0u8 }));
        assert({
            &&& pr & 1 != 0
            &&& (pr & 2 != 0) == (f & 2 != 0)
            &&& (pr & 4 != 0) == (f & 1 != 0)
            &&& pr & 0xf8 == 0
        }) by (bit_vector)
            requires
                pr == 1u8 | (if f & 2 != 0 { 2u8 } else { 0u8 }) | (if f & 1 != 0 { 4u8 } else { 0u8 }),
        ;
        let o = phdr.offset as int;
        let off = phdr.offset;
        assert((off as usize) % 4096 == (off % 4096) as usize) by (bit_vector);
        assert(o / 4096 * 4096 <= o && 0 <= o / 4096 * 4096) by (nonlinear_arith)
            requires
                0 <= o,
        ;
        assert(p.file_offset == o / 4096 * 4096);
        assert(p.start % 4096 == 0 && p.start <= v < p.start + 4096) by (nonlinear_arith)
            requires
                p.start == v / 4096 * 4096,
                0 <= v,
        ;
        assert(p.file_offset % 4096 == 0 && p.file_offset <= o && o - p.file_offset == o % 4096) by (nonlinear_arith)
            requires
                p.file_offset == o / 4096 * 4096,
                0 <= o,
        ;
        assert(v - p.start == v % 4096) by (nonlinear_arith)
            requires
                p.start == v / 4096 * 4096,
                0 <= v,
        ;
    }
}

/// The path of a program interpreter: the segment's file bytes, padded with zeroes or cut to
/// its size in memory, up to the first NUL.
pub open spec fn interp_path_spec(file_bytes: Seq<u8>, mem_size: nat) -> Seq<u8> {
    let padded = if mem_size <= file_bytes.len() {
        file_bytes.take(mem_size as int)
    } else {
        file_bytes + Seq::new((mem_size - file_bytes.len()) as nat, |i: int| 0u8)
    };
    let nul = first_nul(padded, 0);
    padded.take(nul)
}

/// Index of the first NUL of `s` from `i` on, or its length.
pub open spec fn first_nul(s: Seq<u8>, i: int) -> int
    decreases s.len() - i,
{
    if i >= s.len() || i < 0 {
        s.len() as int
    } else if s[i] == 0 {
        i
    } else {
        first_nul(s, i + 1)
    }
}

/// The path of a program interpreter from the bytes of its segment.
pub fn interp_path(file_bytes: &[u8], mem_size: usize) -> (r: Vec<u8>)
    ensures
        r@ == interp_path_spec(file_bytes@, mem_size as nat),
{
    let ghost padded = if mem_size <= file_bytes@.len() {
        file_bytes@.take(mem_size as int)
    } else {
        file_bytes@ + Seq::new((mem_size - file_bytes@.len()) as nat, |i: int| 0u8)
    };
    let mut r: Vec<u8> = Vec::new();
    let mut i: usize = 0;
    while i < mem_size
        invariant
            i <= mem_size,
            padded.len() == mem_size,
            padded == (if mem_size <= file_bytes@.len() {
                file_bytes@.take(mem_size as int)
            } else {
                file_bytes@ + Seq::new((mem_size - file_bytes@.len()) as nat, |i: int| 0u8)
            }),
            r@ == padded.take(i as int),
            forall|j: int| 0 <= j < i ==> padded[j] != 0,
            first_nul(padded, 0) == first_nul(padded, i as int),
        decreases mem_size - i,
    {
        let b = if i < file_bytes.len() { file_bytes[i] } else { 0 };
        assert(b == padded[i as int]);
        if b == 0 {
            return r;
        }
        r.push(b);
        i = i + 1;
        assert(r@ =~= padded.take(i as int));
    }
    assert(r@ =~= padded.take(mem_size as int));
    r
}

/// One step of loading an executable, in the order of its program headers.
#[derive(Clone, Copy, Debug, PartialEq, Eq, Structural)]
pub enum LoadStep {
    /// Map a loadable segment.
    Segment(SegmentPlan),
    /// Append an auxiliary vector entry.
    Aux(AuxvEntry),
    /// Load the program interpreter whose path lies in the file at `offset`, then report its
    /// base with [`AT_BASE`] and enter it instead.
    Interp { offset: u64, file_size: u64, mem_size: u64 },
}

/// Where an executable is entered, where it is loaded and the steps that load it.
pub struct LoadPlan {
    pub entry: usize,
    pub load_offset: usize,
    pub steps: Vec<LoadStep>,
}

/// The lowest start and highest end of the loadable segments from header `i` on, or `None`
/// when a loadable segment with file contents does not start at its file offset within a
/// page, or ends past the address space.
pub open spec fn vma_scan(s: Seq<ProgHeader>, i: int, lo: int, hi: int) -> Option<(int, int)>
    decreases s.len() - i,
{
    if i >= s.len() || i < 0 {
        Some((lo, hi))
    } else if s[i].type_ == PT_LOAD {
        let v = (s[i].vaddr as usize) as int;
        let top = v + (s[i].mem_size as usize) as int;
        if s[i].file_size > 0 && s[i].vaddr % (PAGE_SIZE as u64) != s[i].offset % (PAGE_SIZE as u64) {
            None
        } else if top > usize::MAX {
            None
        } else {
            vma_scan(s, i + 1, if v < lo { v } else { lo }, if top > hi { top } else { hi })
        }
    } else {
        vma_scan(s, i + 1, lo, hi)
    }
}

/// How far an executable is moved from the addresses it was linked at: position-independent
/// executables start 64 KiB into memory, interpreters halfway through the user half.
pub open spec fn load_offset_spec(h: ElfHeader, lo: usize, is_interp: bool, half: usize) -> usize {
    if h.type_ == ET_DYN {
        let base: usize = if is_interp { (half / 2) as usize } else { 0x10000 };
        base.wrapping_sub(lo)
    } else {
        0
    }
}

/// `p` before the steps of `o`, if there are any.
pub open spec fn prepend(p: Seq<LoadStep>, o: Option<Seq<LoadStep>>) -> Option<Seq<LoadStep>> {
    match o {
        Some(r) => Some(p + r),
        None => None,
    }
}

/// The steps for the program headers from `i` on.
pub open spec fn steps_from(s: Seq<ProgHeader>, i: int, h: ElfHeader, load_offset: usize, is_interp: bool) -> Option<Seq<LoadStep>>
    decreases s.len() - i,
{
    if i >= s.len() || i < 0 {
        Some(Seq::empty())
    } else {
        let rest = steps_from(s, i + 1, h, load_offset, is_interp);
        if s[i].type_ == PT_LOAD {
            match segment_plan(s[i], load_offset) {
                Some(p) => prepend(seq![LoadStep::Segment(p)], rest),
                None => None,
            }
        } else if s[i].type_ == PT_PHDR {
            prepend(
                seq![
                    LoadStep::Aux(AuxvEntry { type_: AT_PHENT, value: h.phentsize as usize }),
                    LoadStep::Aux(AuxvEntry { type_: AT_PHNUM, value: h.phnum as usize }),
                    LoadStep::Aux(AuxvEntry { type_: AT_PHDR, value: (s[i].vaddr as usize).wrapping_add(load_offset) }),
                ],
                rest,
            )
        } else if s[i].type_ == PT_INTERP {
            if is_interp {
                None
            } else {
                prepend(seq![LoadStep::Interp { offset: s[i].offset, file_size: s[i].file_size, mem_size: s[i].mem_size }], rest)
            }
        } else {
            rest
        }
    }
}

/// The lowest start and highest end of the loadable segments.
fn vma_bounds(phdrs: &Vec<ProgHeader>) -> (r: Option<(usize, usize)>)
    ensures
        match vma_scan(phdrs@, 0, usize::MAX as int, 0) {
            None => r is None,
            Some((lo, hi)) => r == Some((lo as usize, hi as usize)) && 0 <= lo <= usize::MAX && 0 <= hi <= usize::MAX,
        },
{
    let mut lo = usize::MAX;
    let mut hi: usize = 0;
    let mut i: usize = 0;
    while i < phdrs.len()
        invariant
            i <= phdrs@.len(),
            vma_scan(phdrs@, 0, usize::MAX as int, 0) == vma_scan(phdrs@, i as int, lo as int, hi as int),
        decreases phdrs@.len() - i,
    {
        let p = phdrs[i];
        if p.type_ == PT_LOAD {
            if p.file_size > 0 && p.vaddr % (PAGE_SIZE as u64) != p.offset % (PAGE_SIZE as u64) {
                return None;
            }
            let v = p.vaddr as usize;
            let m = p.mem_size as usize;
            if v > usize::MAX - m {
                return None;
            }
            if v < lo {
                lo = v;
            }
            if v + m > hi {
                hi = v + m;
            }
        }
        i = i + 1;
    }
    Some((lo, hi))
}

/// Append the steps for all program headers.
fn push_steps(header: &ElfHeader, phdrs: &Vec<ProgHeader>, load_offset: usize, is_interp: bool, steps: &mut Vec<LoadStep>) -> (r: EResult<()>)
    ensures
        match steps_from(phdrs@, 0, *header, load_offset, is_interp) {
            None => r == Err::<(), Errno>(Errno::ENOEXEC),
            Some(st) => r is Ok && final(steps)@ == old(steps)@ + st,
        },
{
    let ghost s0 = steps@;
    let mut i: usize = 0;
    while i < phdrs.len()
        invariant
            i <= phdrs@.len(),
            steps@.len() >= s0.len(),
            steps@.take(s0.len() as int) == s0,
            steps_from(phdrs@, 0, *header, load_offset, is_interp) == prepend(steps@.skip(s0.len() as int), steps_from(phdrs@, i as int, *header, load_offset, is_interp)),
        decreases phdrs@.len() - i,
    {
        let p = phdrs[i];
        let ghost before = steps@;
        if p.type_ == PT_LOAD {
            let plan = match plan_segment(&p, load_offset) {
                Ok(pl) => pl,
                Err(e) => {
                    return Err(e);
                },
            };
            steps.push(LoadStep::Segment(plan));
        } else if p.type_ == PT_PHDR {
            steps.push(LoadStep::Aux(AuxvEntry { type_: AT_PHENT, value: header.phentsize as usize }));
            steps.push(LoadStep::Aux(AuxvEntry { type_: AT_PHNUM, value: header.phnum as usize }));
            steps.push(LoadStep::Aux(AuxvEntry { type_: AT_PHDR, value: (p.vaddr as usize).wrapping_add(load_offset) }));
        } else if p.type_ == PT_INTERP {
            if is_interp {
                return Err(Errno::ENOEXEC);
            }
            steps.push(LoadStep::Interp { offset: p.offset, file_size: p.file_size, mem_size: p.mem_size });
        }
        proof {
            assert(steps@.skip(s0.len() as int) =~= before.skip(s0.len() as int) + steps@.skip(before.len() as int));
            assert(steps@.take(s0.len() as int) =~= before.take(s0.len() as int));
        }
        i = i + 1;
    }
    proof {
        assert(steps@ =~= s0 + steps@.skip(s0.len() as int));
    }
    Ok(())
}

/// Plan the loading of an executable with file header `header` and program headers `phdrs`:
/// validate the header, choose the load offset and compute the mappings and auxiliary vector
/// entries; `half` is the size of the user half of the address space.
pub fn load_plan(header: &ElfHeader, phdrs: &Vec<ProgHeader>, is_interp: bool, half: usize) -> (r: EResult<LoadPlan>)
    ensures
        !header.valid() ==> r == Err::<LoadPlan, Errno>(Errno::ENOEXEC),
        header.valid() ==> match vma_scan(phdrs@, 0, usize::MAX as int, 0) {
            None => r == Err::<LoadPlan, Errno>(Errno::ENOEXEC),
            Some((lo, hi)) => {
                let off = load_offset_spec(*header, lo as usize, is_interp, half);
                let entry = (header.entry as usize).wrapping_add(off);
                match steps_from(phdrs@, 0, *header, off, is_interp) {
                    None => r == Err::<LoadPlan, Errno>(Errno::ENOEXEC),
                    Some(steps) => r is Ok && r->Ok_0.entry == entry && r->Ok_0.load_offset == off
                        && r->Ok_0.steps@ == seq![LoadStep::Aux(AuxvEntry { type_: AT_ENTRY, value: entry })] + steps,
                }
            },
        },
{
    if !header.is_valid() {
        return Err(Errno::ENOEXEC);
    }
    let (lo, _hi) = match vma_bounds(phdrs) {
        Some(b) => b,
        None => {
            return Err(Errno::ENOEXEC);
        },
    };
    let load_offset = if header.type_ == ET_DYN {
        let base: usize = if is_interp { half / 2 } else { 0x10000 };
        base.wrapping_sub(lo)
    } else {
        0
    };
    let entry = (header.entry as usize).wrapping_add(load_offset);
    let mut steps: Vec<LoadStep> = Vec::new();
    steps.push(LoadStep::Aux(AuxvEntry { type_: AT_ENTRY, value: entry }));
    match push_steps(header, phdrs, load_offset, is_interp, &mut steps) {
        Ok(()) => {},
        Err(e) => {
            return Err(e);
        },
    }
    Ok(LoadPlan { entry, load_offset, steps })
}

} // verus!
