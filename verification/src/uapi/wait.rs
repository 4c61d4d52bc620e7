//! Encoding and decoding of process wait statuses.
use vstd::prelude::*;

verus! {

pub const WNOHANG: i32 = 1;
pub const WUNTRACED: i32 = 2;
pub const WSTOPPED: i32 = 2;
pub const WEXITED: i32 = 4;
pub const WCONTINUED: i32 = 8;
pub const WNOWAIT: i32 = 0x01000000;
pub const WCOREFLAG: i32 = 0x80;

/// Wait status of a process that exited with `code`: the low byte of the code in bits 8..16.
pub fn w_exited(code: i32) -> (r: i32)
    ensures
        r == (code & 0xff) << 8u32,
        0 <= r <= 0xff00,
{
    let r = (code & 0xff) << 8u32;
    assert(0 <= r <= 0xff00) by (bit_vector)
        requires r == (code & 0xff) << 8u32;
    r
}

/// Wait status of a process killed by signal `sig`: the low byte of the signal in bits 16..24, and bit 6.
pub fn w_signalled(sig: i32) -> (r: i32)
    ensures
        r == ((sig & 0xff) << 16u32) | 0x40,
{
    ((sig & 0xff) << 16u32) | 0x40
}

/// Wait status of a process stopped by signal `sig`: the low byte of the signal in bits 16..24, and bit 5.
pub fn w_stopped(sig: i32) -> (r: i32)
    ensures
        r == ((sig & 0xff) << 16u32) | 0x20,
{
    ((sig & 0xff) << 16u32) | 0x20
}

/// Wait status of a process continued by signal `sig`; encoded as [`w_stopped`] does.
pub fn w_continued(sig: i32) -> (r: i32)
    ensures
        r == ((sig & 0xff) << 16u32) | 0x20,
{
    ((sig & 0xff) << 16u32) | 0x20
}

/// Whether `status` describes an exit: its low byte is zero.
pub fn w_if_exited(status: i32) -> (r: bool)
    ensures
        r == (status & 0xff == 0),
{
    (status & 0xff) == 0
}

/// Whether `status` describes a kill by a signal: bit 6 is set.
pub fn w_if_signalled(status: i32) -> (r: bool)
    ensures
        r == (status & 0x40 != 0),
{
    (status & 0x40) != 0
}

/// Whether `status` describes a stop: bit 5 is set.
pub fn w_if_stopped(status: i32) -> (r: bool)
    ensures
        r == (status & 0x20 != 0),
{
    (status & 0x20) != 0
}

/// Whether `status` describes a continue: bit 4 is set.
pub fn w_if_continued(status: i32) -> (r: bool)
    ensures
        r == (status & 0x10 != 0),
{
    (status & 0x10) != 0
}

/// A status made by [`w_exited`] reads back as an exit and neither as a kill nor as a stop.
pub proof fn lemma_exited_status_decodes(code: i32)
    ensures
        ((code & 0xff) << 8u32) & 0xff == 0,
        ((code & 0xff) << 8u32) & 0x40 == 0,
        ((code & 0xff) << 8u32) & 0x20 == 0,
        (((code & 0xff) << 8u32) >> 8u32) & 0xff == code & 0xff,
{
    assert(((code & 0xff) << 8u32) & 0xff == 0 && ((code & 0xff) << 8u32) & 0x40 == 0
        && ((code & 0xff) << 8u32) & 0x20 == 0
        && (((code & 0xff) << 8u32) >> 8u32) & 0xff == code & 0xff) by (bit_vector);
}

/// A status made by [`w_signalled`] reads back as a kill and never as an exit.
pub proof fn lemma_signalled_status_decodes(sig: i32)
    ensures
        (((sig & 0xff) << 16u32) | 0x40) & 0x40 != 0,
        (((sig & 0xff) << 16u32) | 0x40) & 0xff != 0,
{
    assert((((sig & 0xff) << 16u32) | 0x40) & 0x40 != 0
        && (((sig & 0xff) << 16u32) | 0x40) & 0xff != 0) by (bit_vector);
}

/// A status made by [`w_stopped`] reads back as a stop and never as an exit or a kill.
pub proof fn lemma_stopped_status_decodes(sig: i32)
    ensures
        (((sig & 0xff) << 16u32) | 0x20) & 0x20 != 0,
        (((sig & 0xff) << 16u32) | 0x20) & 0x40 == 0,
        (((sig & 0xff) << 16u32) | 0x20) & 0xff != 0,
{
    assert((((sig & 0xff) << 16u32) | 0x20) & 0x20 != 0
        && (((sig & 0xff) << 16u32) | 0x20) & 0x40 == 0
        && (((sig & 0xff) << 16u32) | 0x20) & 0xff != 0) by (bit_vector);
}

} // verus!
