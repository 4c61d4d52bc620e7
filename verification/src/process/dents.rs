//! Directory entries as `getdents` lays them out in the caller's buffer.
use vstd::prelude::*;
use vstd::pervasive::VecAdditionalExecFns;

verus! {

/// Unknown file type.
pub const DT_UNKNOWN: u8 = 0;
/// Named pipe.
pub const DT_FIFO: u8 = 1;
/// Character device.
pub const DT_CHR: u8 = 2;
/// Directory.
pub const DT_DIR: u8 = 4;
/// Block device.
pub const DT_BLK: u8 = 6;
/// Regular file.
pub const DT_REG: u8 = 8;
/// Symbolic link.
pub const DT_LNK: u8 = 10;
/// Unix socket.
pub const DT_SOCK: u8 = 12;
/// Whiteout.
pub const DT_WHT: u8 = 14;

/// Longest file name.
pub const NAME_MAX: usize = 255;

/// Size of the fixed part of a record: inode, offset, record length and type, packed.
pub const DENT_HEADER_SIZE: usize = 19;

/// Types of file-system nodes.
#[derive(Clone, Copy, Debug, PartialEq, Eq, Structural)]
pub enum NodeType {
    Unknown,
    Fifo,
    CharDev,
    Directory,
    BlockDev,
    Regular,
    Symlink,
    UnixSocket,
}

/// The directory-entry type of a node type; block devices are reported as character devices.
pub open spec fn dt_of(t: NodeType) -> u8 {
    match t {
        NodeType::Unknown => DT_UNKNOWN,
        NodeType::Fifo => DT_FIFO,
        NodeType::CharDev => DT_CHR,
        NodeType::Directory => DT_DIR,
        NodeType::BlockDev => DT_CHR,
        NodeType::Regular => DT_REG,
        NodeType::Symlink => DT_LNK,
        NodeType::UnixSocket => DT_SOCK,
    }
}

/// The `n` low bytes of `x`, least significant first.
pub open spec fn le_bytes(x: u64, n: nat) -> Seq<u8> {
    Seq::new(n, |i: int| ((x >> (8 * i) as u64) & 0xff) as u8)
}

/// Length of the record of a name of `name_len` bytes: header, name and NUL, rounded up to a
/// multiple of eight.
pub open spec fn record_len(name_len: nat) -> nat {
    let raw = (DENT_HEADER_SIZE + name_len + 1) as nat;
    if raw % 8 == 0 {
        raw
    } else {
        (raw + 8 - raw % 8) as nat
    }
}

/// The bytes of a record up to and including the name's NUL; the padding after it is left as
/// it was.
pub open spec fn dent_bytes(ino: u64, off: u64, name: Seq<u8>, t: NodeType) -> Seq<u8> {
    le_bytes(ino, 8) + le_bytes(off, 8) + le_bytes(record_len(name.len()) as u64, 2) + seq![dt_of(t)] + name
        + seq![0u8]
}

/// A record's type byte, its nineteenth, tells the node type by the numbers of the
/// directory-entry ABI: 0 unknown, 1 FIFO, 2 character device (and block device), 4 directory,
/// 8 regular file, 10 symbolic link, 12 socket; each number but 2 belongs to one node type.
pub proof fn lemma_record_type_byte(ino: u64, off: u64, name: Seq<u8>, t: NodeType)
    ensures
        dent_bytes(ino, off, name, t).len() == 20 + name.len(),
        dent_bytes(ino, off, name, t)[18] == match t {
            NodeType::Unknown => 0u8,
            NodeType::Fifo => 1u8,
            NodeType::CharDev => 2u8,
            NodeType::Directory => 4u8,
            NodeType::BlockDev => 2u8,
            NodeType::Regular => 8u8,
            NodeType::Symlink => 10u8,
            NodeType::UnixSocket => 12u8,
        },
        (dent_bytes(ino, off, name, t)[18] == 10) == (t == NodeType::Symlink),
        (dent_bytes(ino, off, name, t)[18] == 8) == (t == NodeType::Regular),
        (dent_bytes(ino, off, name, t)[18] == 4) == (t == NodeType::Directory),
        (dent_bytes(ino, off, name, t)[18] == 1) == (t == NodeType::Fifo),
        (dent_bytes(ino, off, name, t)[18] == 12) == (t == NodeType::UnixSocket),
        (dent_bytes(ino, off, name, t)[18] == 0) == (t == NodeType::Unknown),
        (dent_bytes(ino, off, name, t)[18] == 2) == (t == NodeType::CharDev || t == NodeType::BlockDev),
{
    let b = dent_bytes(ino, off, name, t);
    let h = le_bytes(ino, 8) + le_bytes(off, 8) + le_bytes(record_len(name.len()) as u64, 2);
    assert(h.len() == 18);
    assert(b[18] == dt_of(t));
}

/// Append the `n` low bytes of `x`, least significant first.
fn push_le(v: &mut Vec<u8>, x: u64, n: usize)
    requires
        n <= 8,
    ensures
        final(v)@ == old(v)@ + le_bytes(x, n as nat),
{
    let ghost v0 = v@;
    let mut i: usize = 0;
    while i < n
        invariant
            n <= 8,
            i <= n,
            v@ == v0 + le_bytes(x, i as nat),
        decreases n - i,
    {
        let b = ((x >> (8 * i) as u64) & 0xff) as u8;
        v.push(b);
        i = i + 1;
        assert(v@ =~= v0 + le_bytes(x, i as nat));
    }
}

/// Fills a caller's buffer with directory entries, one record after the other.
pub struct DentBuffer {
    index: usize,
    buf: Vec<u8>,
}

impl DentBuffer {
    /// Bytes written so far.
    pub closed spec fn written(&self) -> nat {
        self.index as nat
    }

    /// The buffer's contents.
    pub closed spec fn contents(&self) -> Seq<u8> {
        self.buf@
    }

    /// Start filling `buf` from its beginning.
    pub fn new(buf: Vec<u8>) -> (r: Self)
        ensures
            r.written() == 0,
            r.contents() == buf@,
    {
        DentBuffer { index: 0, buf }
    }

    /// Copy `bytes` to `at`.
    fn put_bytes(&mut self, at: usize, bytes: &[u8])
        requires
            at + bytes@.len() <= old(self).buf@.len(),
        ensures
            final(self).index == old(self).index,
            final(self).buf@ == old(self).buf@.take(at as int) + bytes@ + old(self).buf@.skip(at + bytes@.len()),
    {
        let len = self.buf.len();
        let mut i: usize = 0;
        while i < bytes.len()
            invariant
                i <= bytes@.len(),
                at + bytes@.len() <= self.buf@.len(),
                self.buf@.len() == len,
                self.index == old(self).index,
                self.buf@.len() == old(self).buf@.len(),
                forall|j: int| 0 <= j < at ==> #[trigger] self.buf@[j] == old(self).buf@[j],
                forall|j: int| at + bytes@.len() <= j < self.buf@.len() ==> #[trigger] self.buf@[j] == old(self).buf@[j],
                forall|j: int| 0 <= j < i ==> #[trigger] self.buf@[at + j] == bytes@[j],
            decreases bytes@.len() - i,
        {
            self.buf.set(at + i, bytes[i]);
            i = i + 1;
        }
        assert forall|k: int| at <= k < at + bytes@.len() implies #[trigger] self.buf@[k] == bytes@[k - at] by {
            assert(self.buf@[at + (k - at)] == bytes@[k - at]);
        }
        assert(self.buf@ =~= old(self).buf@.take(at as int) + bytes@ + old(self).buf@.skip(at + bytes@.len()));
    }

    /// Append the record of one directory entry, if it fits; returns whether it did.
    pub fn push(&mut self, ino: u64, dirent_off: u64, t: NodeType, name: &[u8]) -> (r: bool)
        requires
            name@.len() <= NAME_MAX,
            old(self).written() <= old(self).contents().len(),
        ensures
            r == (old(self).written() + record_len(name@.len()) <= old(self).contents().len()),
            !r ==> *final(self) == *old(self),
            r ==> final(self).written() == old(self).written() + record_len(name@.len()),
            r ==> final(self).contents() == old(self).contents().take(old(self).written() as int)
                + dent_bytes(ino, dirent_off, name@, t) + old(self).contents().skip(
                (old(self).written() + dent_bytes(ino, dirent_off, name@, t).len()) as int,
            ),
            final(self).written() <= final(self).contents().len(),
    {
        let raw: u16 = (DENT_HEADER_SIZE + name.len() + 1) as u16;
        let reclen: u16 = if raw % 8 != 0 {
            raw + (8 - raw % 8)
        } else {
            raw
        };
        if self.buf.len() < self.index || (reclen as usize) > self.buf.len() - self.index {
            return false;
        }
        let ty: u8 = match t {
            NodeType::Unknown => DT_UNKNOWN,
            NodeType::Fifo => DT_FIFO,
            NodeType::CharDev => DT_CHR,
            NodeType::Directory => DT_DIR,
            NodeType::BlockDev => DT_CHR,
            NodeType::Regular => DT_REG,
            NodeType::Symlink => DT_LNK,
            NodeType::UnixSocket => DT_SOCK,
        };
        let at = self.index;
        let mut rec: Vec<u8> = Vec::new();
        push_le(&mut rec, ino, 8);
        push_le(&mut rec, dirent_off, 8);
        push_le(&mut rec, reclen as u64, 2);
        rec.push(ty);
        let mut i: usize = 0;
        let ghost r0 = rec@;
        while i < name.len()
            invariant
                i <= name@.len(),
                rec@ == r0 + name@.take(i as int),
            decreases name@.len() - i,
        {
            rec.push(name[i]);
            i = i + 1;
            assert(rec@ =~= r0 + name@.take(i as int));
        }
        rec.push(0);
        proof {
            assert(name@.take(name@.len() as int) =~= name@);
            assert(reclen as nat == record_len(name@.len()));
            assert(rec@ =~= dent_bytes(ino, dirent_off, name@, t));
            assert(rec@.len() <= reclen);
        }
        self.put_bytes(at, rec.as_slice());
        self.index = at + reclen as usize;
        true
    }

    /// The filled buffer and the number of bytes written.
    pub fn finish(self) -> (r: (Vec<u8>, usize))
        ensures
            r.0@ == self.contents(),
            r.1 == self.written(),
    {
        (self.buf, self.index)
    }
}

} // verus!
