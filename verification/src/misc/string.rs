//! The byte-string primitives of the kernel's C interface, on byte buffers.
use vstd::prelude::*;

verus! {

/// Copy `len` bytes from `src` to the start of `dest`.
pub fn memcpy(dest: &mut Vec<u8>, src: &[u8], len: usize)
    requires
        len <= old(dest)@.len(),
        len <= src@.len(),
    ensures
        final(dest)@ == src@.take(len as int) + old(dest)@.skip(len as int),
{
    let mut i: usize = 0;
    while i < len
        invariant
            len <= dest@.len() == old(dest)@.len(),
            len <= src@.len(),
            i <= len,
            forall|j: int| 0 <= j < i ==> #[trigger] dest@[j] == src@[j],
            forall|j: int| i <= j < dest@.len() ==> #[trigger] dest@[j] == old(dest)@[j],
        decreases len - i,
    {
        dest.set(i, src[i]);
        i = i + 1;
    }
    assert(dest@ =~= src@.take(len as int) + old(dest)@.skip(len as int));
}

/// Copy the `len` bytes at `src` to `dest` within one buffer; the two ranges may overlap.
pub fn memmove(buf: &mut Vec<u8>, dest: usize, src: usize, len: usize)
    requires
        dest + len <= old(buf)@.len(),
        src + len <= old(buf)@.len(),
    ensures
        final(buf)@ == old(buf)@.take(dest as int) + old(buf)@.subrange(src as int, src + len) + old(buf)@.skip(
            dest + len,
        ),
{
    let ghost b0 = buf@;
    let total = buf.len();
    if dest > src && src + len > dest {
        // Copy from the back, so that each byte is read before it is overwritten.
        let mut i: usize = len;
        while i > 0
            invariant
                dest + len <= buf@.len() == b0.len(),
                b0.len() == total,
                src + len <= b0.len(),
                dest > src,
                i <= len,
                forall|j: int| 0 <= j < dest + i ==> #[trigger] buf@[j] == b0[j],
                forall|j: int| i <= j < len ==> #[trigger] buf@[dest + j] == b0[src + j],
                forall|j: int| dest + len <= j < b0.len() ==> #[trigger] buf@[j] == b0[j],
            decreases i,
        {
            i = i - 1;
            let v = buf[src + i];
            buf.set(dest + i, v);
        }
    } else if dest != src {
        // Copy from the front: nothing is written before it is read.
        let mut i: usize = 0;
        while i < len
            invariant
                dest + len <= buf@.len() == b0.len(),
                b0.len() == total,
                src + len <= b0.len(),
                dest < src || src + len <= dest,
                i <= len,
                forall|j: int| 0 <= j < dest ==> #[trigger] buf@[j] == b0[j],
                forall|j: int| 0 <= j < i ==> #[trigger] buf@[dest + j] == b0[src + j],
                forall|j: int| dest + i <= j < b0.len() ==> #[trigger] buf@[j] == b0[j],
            decreases len - i,
        {
            let v = buf[src + i];
            buf.set(dest + i, v);
            i = i + 1;
        }
    }
    proof {
        assert forall|k: int| 0 <= k < b0.len() implies #[trigger] buf@[k] == (b0.take(dest as int) + b0.subrange(
            src as int,
            src + len,
        ) + b0.skip(dest + len))[k] by {
            if dest <= k < dest + len {
                assert(buf@[dest + (k - dest)] == b0[src + (k - dest)]);
            }
        }
        assert(buf@ =~= b0.take(dest as int) + b0.subrange(src as int, src + len) + b0.skip(dest + len));
    }
}

/// The first `len` bytes of two byte strings are equal.
pub open spec fn same_prefix(lhs: Seq<u8>, rhs: Seq<u8>, len: usize) -> bool {
    lhs.take(len as int) == rhs.take(len as int)
}

/// Zero if the first `len` bytes of two byte strings are equal, else the difference of their
/// first differing bytes.
pub open spec fn first_difference(lhs: Seq<u8>, rhs: Seq<u8>, len: usize) -> i32 {
    if exists|k: int| 0 <= k < len && lhs[k] != rhs[k] {
        let k = choose|k: int| 0 <= k < len && lhs[k] != rhs[k] && forall|j: int| 0 <= j < k ==> lhs[j] == rhs[j];
        (lhs[k] - rhs[k]) as i32
    } else {
        0
    }
}

/// Find the first difference of the first `len` bytes of `lhs` and `rhs`.
fn first_byte_difference(lhs: &[u8], rhs: &[u8], len: usize) -> (r: i32)
    requires
        len <= lhs@.len(),
        len <= rhs@.len(),
    ensures
        r == first_difference(lhs@, rhs@, len),
        r == 0 <==> same_prefix(lhs@, rhs@, len),
{
    let mut i: usize = 0;
    while i < len
        invariant
            len <= lhs@.len(),
            len <= rhs@.len(),
            i <= len,
            forall|j: int| 0 <= j < i ==> lhs@[j] == rhs@[j],
        decreases len - i,
    {
        let res = lhs[i] as i32 - rhs[i] as i32;
        if res != 0 {
            proof {
                let k = choose|k: int| 0 <= k < len && lhs@[k] != rhs@[k] && forall|j: int| 0 <= j < k ==> lhs@[j] == rhs@[j];
                if k < i {
                } else if k > i {
                    assert(lhs@[i as int] != rhs@[i as int]);
                }
                assert(lhs@.take(len as int)[i as int] != rhs@.take(len as int)[i as int]);
            }
            return res;
        }
        i = i + 1;
    }
    assert(lhs@.take(len as int) =~= rhs@.take(len as int));
    0
}

/// Compare the first `len` bytes of `lhs` and `rhs`: zero if they are equal, else the
/// difference of their first differing bytes.
pub fn memcmp(lhs: &[u8], rhs: &[u8], len: usize) -> (r: i32)
    requires
        len <= lhs@.len(),
        len <= rhs@.len(),
    ensures
        r == first_difference(lhs@, rhs@, len),
        r == 0 <==> same_prefix(lhs@, rhs@, len),
{
    first_byte_difference(lhs, rhs, len)
}

/// Fill the first `len` bytes of `dest` with the low byte of `val`.
pub fn memset(dest: &mut Vec<u8>, val: i32, len: usize)
    requires
        len <= old(dest)@.len(),
    ensures
        final(dest)@ == Seq::new(len as nat, |i: int| val as u8) + old(dest)@.skip(len as int),
{
    let b = val as u8;
    let mut i: usize = 0;
    while i < len
        invariant
            len <= dest@.len() == old(dest)@.len(),
            b == val as u8,
            i <= len,
            forall|j: int| 0 <= j < i ==> #[trigger] dest@[j] == b,
            forall|j: int| i <= j < dest@.len() ==> #[trigger] dest@[j] == old(dest)@[j],
        decreases len - i,
    {
        dest.set(i, b);
        i = i + 1;
    }
    assert(dest@ =~= Seq::new(len as nat, |i: int| val as u8) + old(dest)@.skip(len as int));
}

/// Length of the NUL-terminated string at the start of `s`.
pub fn strlen(s: &[u8]) -> (r: usize)
    requires
        exists|i: int| 0 <= i < s@.len() && s@[i] == 0,
    ensures
        r < s@.len(),
        s@[r as int] == 0,
        forall|j: int| 0 <= j < r ==> s@[j] != 0,
{
    let mut i: usize = 0;
    while s[i] != 0
        invariant
            i < s@.len(),
            exists|k: int| i <= k < s@.len() && s@[k] == 0,
            forall|j: int| 0 <= j < i ==> s@[j] != 0,
        decreases s@.len() - i,
    {
        i = i + 1;
    }
    i
}

} // verus!
