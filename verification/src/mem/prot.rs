//! Mapping protection flags and their translation to MMU flags.
use vstd::prelude::*;
use crate::mem::mmu;

verus! {

/// Mapping is readable.
pub const READ: u8 = 0x1;
/// Mapping is writable.
pub const WRITE: u8 = 0x2;
/// Mapping is executable.
pub const EXEC: u8 = 0x4;
/// Mapping is non-cacheable, idempotent, weakly-ordered (e.g. framebuffer memory).
pub const NC: u8 = 0x8;
/// Mapping is non-cacheable, non-idempotent, strongly-ordered (e.g. memory-mapped I/O).
pub const IO: u8 = 0x10;

/// The MMU flags that a set of protection flags stands for: each of READ, WRITE, EXEC, NC and IO
/// set exactly when the matching MMU flag is.
pub open spec fn prot_matches_mmu(prot: u8, mmu_flags: u32) -> bool {
    &&& (prot & READ != 0) == (mmu_flags & mmu::R != 0)
    &&& (prot & WRITE != 0) == (mmu_flags & mmu::W != 0)
    &&& (prot & EXEC != 0) == (mmu_flags & mmu::X != 0)
    &&& (prot & NC != 0) == (mmu_flags & mmu::NC != 0)
    &&& (prot & IO != 0) == (mmu_flags & mmu::IO != 0)
}

/// The protection flags that a set of MMU flags grants.
pub open spec fn mmu_prot(mmu_flags: u32) -> u8 {
    (if mmu_flags & mmu::R != 0 { READ } else { 0u8 }) | (if mmu_flags & mmu::W != 0 { WRITE } else { 0u8 })
        | (if mmu_flags & mmu::X != 0 { EXEC } else { 0u8 }) | (if mmu_flags & mmu::NC != 0 { NC } else { 0u8 })
        | (if mmu_flags & mmu::IO != 0 { IO } else { 0u8 })
}

/// MMU flags made from protection flags grant exactly those protection flags.
pub proof fn lemma_mmu_prot_of(p: u8, m: u32)
    requires
        prot_matches_mmu(p, m),
    ensures
        mmu_prot(m) == p & 0x1f,
{
    assert(((p & 1 != 0) == (m & 2 != 0) && (p & 2 != 0) == (m & 4 != 0) && (p & 4 != 0) == (m & 8 != 0)
        && (p & 8 != 0) == (m & 512 != 0) && (p & 16 != 0) == (m & 1024 != 0)) ==> ((if m & 2 != 0 { 1u8 } else { 0u8 })
        | (if m & 4 != 0 { 2u8 } else { 0u8 }) | (if m & 8 != 0 { 4u8 } else { 0u8 }) | (if m & 512 != 0 { 8u8 } else { 0u8 })
        | (if m & 1024 != 0 { 16u8 } else { 0u8 })) == p & 0x1f) by (bit_vector);
}

/// Setting MMU flags that are no protection flags leaves the protection flags alone.
pub proof fn lemma_prot_extra_bits(m: u32, x: u32)
    requires
        x & 0x60e == 0,
    ensures
        mmu_prot(m | x) == mmu_prot(m),
{
    assert(x & 0x60e == 0 ==> ((m | x) & 2 != 0) == (m & 2 != 0) && ((m | x) & 4 != 0) == (m & 4 != 0) && ((m | x) & 8 != 0)
        == (m & 8 != 0) && ((m | x) & 512 != 0) == (m & 512 != 0) && ((m | x) & 1024 != 0) == (m & 1024 != 0)) by (bit_vector);
}

/// Convert MMU flags into prot flags.
pub fn from_mmu_flags(mmu_flags: u32) -> (r: u8)
    ensures
        r == mmu_prot(mmu_flags),
        prot_matches_mmu(r, mmu_flags),
        r & !0x1fu8 == 0,
{
    let a: u8 = if mmu_flags & mmu::R != 0 { READ } else { 0 };
    let b: u8 = if mmu_flags & mmu::W != 0 { WRITE } else { 0 };
    let c: u8 = if mmu_flags & mmu::X != 0 { EXEC } else { 0 };
    let d: u8 = if mmu_flags & mmu::NC != 0 { NC } else { 0 };
    let e: u8 = if mmu_flags & mmu::IO != 0 { IO } else { 0 };
    let prot = a | b | c | d | e;
    assert({
        &&& (prot & 1 != 0) == (mmu_flags & 2 != 0)
        &&& (prot & 2 != 0) == (mmu_flags & 4 != 0)
        &&& (prot & 4 != 0) == (mmu_flags & 8 != 0)
        &&& (prot & 8 != 0) == (mmu_flags & 512 != 0)
        &&& (prot & 16 != 0) == (mmu_flags & 1024 != 0)
        &&& prot & !0x1fu8 == 0
    }) by (bit_vector)
        requires
            prot == a | b | c | d | e,
            a == (if mmu_flags & 2 != 0 { 1u8 } else { 0u8 }),
            b == (if mmu_flags & 4 != 0 { 2u8 } else { 0u8 }),
            c == (if mmu_flags & 8 != 0 { 4u8 } else { 0u8 }),
            d == (if mmu_flags & 512 != 0 { 8u8 } else { 0u8 }),
            e == (if mmu_flags & 1024 != 0 { 16u8 } else { 0u8 }),
    ;
    prot
}

/// Convert prot flags into MMU flags.
pub fn into_mmu_flags(prot_flags: u8) -> (r: u32)
    ensures
        prot_matches_mmu(prot_flags, r),
        r & !0x60eu32 == 0,
{
    let a: u32 = if prot_flags & READ != 0 { mmu::R } else { 0 };
    let b: u32 = if prot_flags & WRITE != 0 { mmu::W } else { 0 };
    let c: u32 = if prot_flags & EXEC != 0 { mmu::X } else { 0 };
    let d: u32 = if prot_flags & NC != 0 { mmu::NC } else { 0 };
    let e: u32 = if prot_flags & IO != 0 { mmu::IO } else { 0 };
    let m = a | b | c | d | e;
    assert({
        &&& (prot_flags & 1 != 0) == (m & 2 != 0)
        &&& (prot_flags & 2 != 0) == (m & 4 != 0)
        &&& (prot_flags & 4 != 0) == (m & 8 != 0)
        &&& (prot_flags & 8 != 0) == (m & 512 != 0)
        &&& (prot_flags & 16 != 0) == (m & 1024 != 0)
        &&& m & !0x60eu32 == 0
    }) by (bit_vector)
        requires
            m == a | b | c | d | e,
            a == (if prot_flags & 1 != 0 { 2u32 } else { 0u32 }),
            b == (if prot_flags & 2 != 0 { 4u32 } else { 0u32 }),
            c == (if prot_flags & 4 != 0 { 8u32 } else { 0u32 }),
            d == (if prot_flags & 8 != 0 { 512u32 } else { 0u32 }),
            e == (if prot_flags & 16 != 0 { 1024u32 } else { 0u32 }),
    ;
    m
}

/// Translating protection flags to MMU flags and back keeps exactly the five protection bits.
pub proof fn lemma_prot_roundtrip(prot: u8, mmu_flags: u32, back: u8)
    requires
        prot_matches_mmu(prot, mmu_flags),
        prot_matches_mmu(back, mmu_flags),
        back & !0x1fu8 == 0,
    ensures
        back == prot & 0x1f,
{
    assert(back == prot & 0x1f) by (bit_vector)
        requires
            (prot & 1 != 0) == (mmu_flags & 2 != 0),
            (prot & 2 != 0) == (mmu_flags & 4 != 0),
            (prot & 4 != 0) == (mmu_flags & 8 != 0),
            (prot & 8 != 0) == (mmu_flags & 512 != 0),
            (prot & 16 != 0) == (mmu_flags & 1024 != 0),
            (back & 1 != 0) == (mmu_flags & 2 != 0),
            (back & 2 != 0) == (mmu_flags & 4 != 0),
            (back & 4 != 0) == (mmu_flags & 8 != 0),
            (back & 8 != 0) == (mmu_flags & 512 != 0),
            (back & 16 != 0) == (mmu_flags & 1024 != 0),
            back & !0x1fu8 == 0,
    ;
}

} // verus!
