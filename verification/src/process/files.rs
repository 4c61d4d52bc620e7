//! Per-process file descriptor tables.
use vstd::prelude::*;
use std::collections::BTreeMap;
use crate::errno::{Errno, EResult};

verus! {

broadcast use vstd::std_specs::btree::group_btree_axioms, vstd::laws_cmp::group_laws_cmp;

/// Maximum number of open files per process.
pub const FILE_MAX: i32 = 256;

/// Special file descriptor number that stands for the current working directory.
pub const AT_FDCWD: i32 = -100;

/// File descriptor flag: close the file when the process executes a new program.
pub const O_CLOEXEC: u32 = 0x0001_0000;

/// File descriptor flag: do not make the file the controlling terminal.
pub const O_NOCTTY: u32 = 0x0100_0000;

/// A single file descriptor: its flags and the open file it refers to.
pub struct FileDesc<F> {
    pub flags: u32,
    pub file: F,
}

/// Process file descriptor table.
pub struct FDTable<F> {
    pub inner: BTreeMap<i32, FileDesc<F>>,
}

/// Whether a file descriptor number lies within the table's limits.
pub open spec fn fd_in_range(fd: int) -> bool {
    0 <= fd < FILE_MAX
}

/// The lowest file descriptor number from `from` on that `m` leaves free, if one is in range.
pub open spec fn lowest_free<F>(m: Map<i32, FileDesc<F>>, from: int) -> Option<i32>
    decreases FILE_MAX - from,
{
    if from >= FILE_MAX || from < 0 {
        None
    } else if !m.contains_key(from as i32) {
        Some(from as i32)
    } else {
        lowest_free(m, from + 1)
    }
}

/// Where [`FDTable::dup`] puts the copy in a table whose entries are `m`, or why it cannot.
pub open spec fn dup_target<F>(m: Map<i32, FileDesc<F>>, newfd: i32, at_least: bool) -> EResult<i32> {
    if newfd == -1 || (at_least && newfd >= 0) {
        match lowest_free(m, if newfd == -1 { 0 } else { newfd as int }) {
            Some(n) => Ok(n),
            None => Err(Errno::EMFILE),
        }
    } else if !at_least && 0 < newfd < FILE_MAX {
        Ok(newfd)
    } else {
        Err(Errno::EINVAL)
    }
}

/// Descriptor numbers are totally ordered, as the table's map needs.
spec fn fd_order_ok() -> bool {
    vstd::laws_cmp::obeys_cmp::<i32>()
}

proof fn lemma_i32_ordered()
    ensures
        fd_order_ok(),
{
}

proof fn lemma_lowest_free_step<F>(m: Map<i32, FileDesc<F>>, i: i32)
    requires
        0 <= i < FILE_MAX,
    ensures
        !m.contains_key(i) ==> lowest_free(m, i as int) == Some(i),
        m.contains_key(i) ==> lowest_free(m, i as int) == lowest_free(m, i + 1),
{
    assert((i as int) as i32 == i);
}

/// The lowest free descriptor from `from` on is free, within the table's limit, and every
/// descriptor between `from` and it is taken; where there is none, every one from `from` up to
/// the limit is taken.
pub proof fn lemma_lowest_free<F>(m: Map<i32, FileDesc<F>>, from: int)
    requires
        0 <= from,
    ensures
        lowest_free(m, from) matches Some(fd) ==> from <= fd < FILE_MAX && !m.contains_key(fd)
            && forall|j: int| from <= j < fd ==> m.contains_key(#[trigger] (j as i32)),
        lowest_free(m, from) is None ==> forall|j: int| from <= j < FILE_MAX ==> m.contains_key(#[trigger] (j as i32)),
    decreases FILE_MAX - from,
{
    if from < FILE_MAX && m.contains_key(from as i32) {
        lemma_lowest_free(m, from + 1);
    }
}

impl<F> FDTable<F> {
    /// An empty table.
    pub fn new() -> (r: Self)
        ensures
            r.inner@ == Map::<i32, FileDesc<F>>::empty(),
    {
        FDTable { inner: BTreeMap::new() }
    }

    /// All descriptor numbers lie within the table's limits.
    pub open spec fn wf(&self) -> bool {
        forall|fd: i32| #[trigger] self.inner@.contains_key(fd) ==> fd_in_range(fd as int)
    }

    /// If `fileno` is [`AT_FDCWD`], return `Ok(None)`; otherwise, the same as [`Self::get_file`].
    pub fn get_atfile(&self, fileno: i32) -> (r: EResult<Option<&F>>)
        ensures
            fileno == AT_FDCWD ==> r == Ok::<Option<&F>, Errno>(None),
            fileno != AT_FDCWD && self.inner@.contains_key(fileno) ==> r == Ok::<Option<&F>, Errno>(Some(&self.inner@[fileno].file)),
            fileno != AT_FDCWD && !self.inner@.contains_key(fileno) ==> r == Err::<Option<&F>, Errno>(Errno::EBADF),
    {
        if fileno == AT_FDCWD {
            Ok(None)
        } else {
            match self.get_file(fileno) {
                Ok(f) => Ok(Some(f)),
                Err(e) => Err(e),
            }
        }
    }

    /// Get a file from the file descriptor table.
    pub fn get_file(&self, fileno: i32) -> (r: EResult<&F>)
        ensures
            self.inner@.contains_key(fileno) ==> r == Ok::<&F, Errno>(&self.inner@[fileno].file),
            !self.inner@.contains_key(fileno) ==> r == Err::<&F, Errno>(Errno::EBADF),
    {
        match self.inner.get(&fileno) {
            Some(d) => Ok(&d.file),
            None => Err(Errno::EBADF),
        }
    }

    /// Replace the entry of an open file descriptor; a descriptor that is not open is left
    /// alone and reported.
    pub fn replace_file(&mut self, fileno: i32, file: FileDesc<F>) -> (r: EResult<()>)
        ensures
            !fd_in_range(fileno as int) ==> r == Err::<(), Errno>(Errno::EMFILE) && final(self).inner@ == old(self).inner@,
            fd_in_range(fileno as int) && old(self).inner@.contains_key(fileno) ==> r is Ok
                && final(self).inner@ == old(self).inner@.insert(fileno, file),
            fd_in_range(fileno as int) && !old(self).inner@.contains_key(fileno) ==> r == Err::<(), Errno>(Errno::EBADF)
                && final(self).inner@ == old(self).inner@,
            old(self).wf() ==> final(self).wf(),
    {
        if fileno < 0 || fileno >= FILE_MAX {
            return Err(Errno::EMFILE);
        }
        if !self.inner.contains_key(&fileno) {
            return Err(Errno::EBADF);
        }
        self.inner.insert(fileno, file);
        Ok(())
    }

    /// The lowest free descriptor number from `from` on.
    fn find_free(&self, from: i32) -> (r: Option<i32>)
        requires
            0 <= from <= FILE_MAX,
        ensures
            r == lowest_free(self.inner@, from as int),
    {
        proof {
            lemma_i32_ordered();
        }
        let mut i = from;
        while i < FILE_MAX
            invariant
                0 <= from <= i <= FILE_MAX,
                lowest_free(self.inner@, from as int) == lowest_free(self.inner@, i as int),
                fd_order_ok(),
            decreases FILE_MAX - i,
        {
            let present = self.inner.contains_key(&i);
            proof {
                lemma_lowest_free_step(self.inner@, i);
            }
            if !present {
                return Some(i);
            }
            i = i + 1;
        }
        None
    }

    /// Insert a file into the lowest empty slot of the file descriptor table.
    pub fn insert_file(&mut self, file: FileDesc<F>) -> (r: EResult<i32>)
        ensures
            match lowest_free(old(self).inner@, 0) {
                None => r == Err::<i32, Errno>(Errno::EMFILE) && final(self).inner@ == old(self).inner@,
                Some(fd) => r == Ok::<i32, Errno>(fd) && final(self).inner@ == old(self).inner@.insert(fd, file),
            },
            old(self).wf() ==> final(self).wf(),
    {
        self.insert_file_from(0, file)
    }

    /// Insert a file into the lowest empty slot numbered `from` or higher.
    fn insert_file_from(&mut self, from: i32, file: FileDesc<F>) -> (r: EResult<i32>)
        requires
            0 <= from,
        ensures
            match lowest_free(old(self).inner@, from as int) {
                None => r == Err::<i32, Errno>(Errno::EMFILE) && final(self).inner@ == old(self).inner@,
                Some(fd) => r == Ok::<i32, Errno>(fd) && final(self).inner@ == old(self).inner@.insert(fd, file),
            },
            old(self).wf() ==> final(self).wf(),
    {
        if from >= FILE_MAX {
            return Err(Errno::EMFILE);
        }
        let fileno = match self.find_free(from) {
            Some(i) => i,
            None => {
                return Err(Errno::EMFILE);
            },
        };
        proof {
            lemma_lowest_free(self.inner@, from as int);
        }
        self.inner.insert(fileno, file);
        Ok(fileno)
    }

    /// Duplicate descriptor `fd` with the descriptor flags in the upper half of `flags`.
    /// With `newfd` equal to -1 the copy takes the lowest free number. When `at_least` is set
    /// (the request came through `fcntl`), it takes the lowest free number from `newfd` on.
    /// Otherwise it replaces descriptor `newfd`, which must lie in `1..FILE_MAX` and be open;
    /// if it is not open the call fails with `EBADF` and changes nothing.
    pub fn dup(&mut self, fd: i32, flags: u32, newfd: i32, at_least: bool) -> (r: EResult<i32>)
        where F: Clone
        ensures
            old(self).wf() ==> final(self).wf(),
            !old(self).inner@.contains_key(fd) ==> r == Err::<i32, Errno>(Errno::EBADF) && final(self).inner@ == old(self).inner@,
            old(self).inner@.contains_key(fd) ==> match dup_target(old(self).inner@, newfd, at_least) {
                Err(e) => r == Err::<i32, Errno>(e) && final(self).inner@ == old(self).inner@,
                Ok(n) => if newfd == -1 || at_least || old(self).inner@.contains_key(n) {
                    &&& r == Ok::<i32, Errno>(n)
                    &&& final(self).inner@ == old(self).inner@.insert(n, final(self).inner@[n])
                    &&& final(self).inner@[n].flags == flags & 0xffff_0000
                    &&& cloned(old(self).inner@[fd].file, final(self).inner@[n].file)
                } else {
                    r == Err::<i32, Errno>(Errno::EBADF) && final(self).inner@ == old(self).inner@
                },
            },
    {
        let file = match self.inner.get(&fd) {
            Some(d) => d.file.clone(),
            None => {
                return Err(Errno::EBADF);
            },
        };
        let desc = FileDesc { flags: flags & 0xffff_0000, file };
        if newfd == -1 {
            self.insert_file_from(0, desc)
        } else if at_least {
            if newfd < 0 {
                Err(Errno::EINVAL)
            } else {
                self.insert_file_from(newfd, desc)
            }
        } else if newfd > 0 && newfd < FILE_MAX {
            match self.replace_file(newfd, desc) {
                Ok(()) => Ok(newfd),
                Err(e) => Err(e),
            }
        } else {
            Err(Errno::EINVAL)
        }
    }

    /// Insert two files into the two lowest empty slots of the file descriptor table.
    pub fn insert_dual_file(&mut self, file0: FileDesc<F>, file1: FileDesc<F>) -> (r: EResult<(i32, i32)>)
        ensures
            match lowest_free(old(self).inner@, 0) {
                None => r == Err::<(i32, i32), Errno>(Errno::EMFILE) && final(self).inner@ == old(self).inner@,
                Some(fd0) => match lowest_free(old(self).inner@, fd0 + 1) {
                    None => r == Err::<(i32, i32), Errno>(Errno::EMFILE) && final(self).inner@ == old(self).inner@,
                    Some(fd1) => r == Ok::<(i32, i32), Errno>((fd0, fd1)) && final(self).inner@ == old(
                        self,
                    ).inner@.insert(fd0, file0).insert(fd1, file1),
                },
            },
            old(self).wf() ==> final(self).wf(),
    {
        let fileno0 = match self.find_free(0) {
            Some(i) => i,
            None => {
                return Err(Errno::EMFILE);
            },
        };
        proof {
            lemma_lowest_free(self.inner@, 0);
        }
        let fileno1 = match self.find_free(fileno0 + 1) {
            Some(i) => i,
            None => {
                return Err(Errno::EMFILE);
            },
        };
        proof {
            lemma_lowest_free(self.inner@, fileno0 + 1);
        }
        self.inner.insert(fileno0, file0);
        self.inner.insert(fileno1, file1);
        Ok((fileno0, fileno1))
    }

    /// Remove a file descriptor from the file descriptor table.
    pub fn remove_file(&mut self, fileno: i32) -> (r: EResult<()>)
        ensures
            final(self).inner@ == old(self).inner@.remove(fileno),
            old(self).inner@.contains_key(fileno) ==> r is Ok,
            !old(self).inner@.contains_key(fileno) ==> r == Err::<(), Errno>(Errno::EBADF),
            old(self).wf() ==> final(self).wf(),
    {
        match self.inner.remove(&fileno) {
            Some(_) => Ok(()),
            None => Err(Errno::EBADF),
        }
    }

    /// Remove all files marked [`O_CLOEXEC`].
    pub fn close_cloexec(&mut self)
        requires
            old(self).wf(),
        ensures
            final(self).wf(),
            final(self).inner@ == old(self).inner@.restrict(
                Set::new(|fd: i32| old(self).inner@.contains_key(fd) && old(self).inner@[fd].flags & O_CLOEXEC == 0),
            ),
    {
        let ghost m0 = self.inner@;
        let mut i: i32 = 0;
        while i < FILE_MAX
            invariant
                0 <= i <= FILE_MAX,
                forall|fd: i32| #[trigger] m0.contains_key(fd) ==> fd_in_range(fd as int),
                forall|fd: i32| #![trigger self.inner@.contains_key(fd)]
                    self.inner@.contains_key(fd) <==> m0.contains_key(fd) && (fd >= i || m0[fd].flags & O_CLOEXEC == 0),
                forall|fd: i32| #[trigger] self.inner@.contains_key(fd) ==> self.inner@[fd] == m0[fd],
            decreases FILE_MAX - i,
        {
            let close = match self.inner.get(&i) {
                Some(d) => d.flags & O_CLOEXEC != 0,
                None => false,
            };
            if close {
                self.inner.remove(&i);
            }
            i = i + 1;
        }
        assert(self.inner@ =~= m0.restrict(Set::new(|fd: i32| m0.contains_key(fd) && m0[fd].flags & O_CLOEXEC == 0)));
    }

    /// Whether descriptors 0, 1 and 2 are all open.
    pub fn has_stdio(&self) -> (r: bool)
        ensures
            r == (self.inner@.contains_key(0) && self.inner@.contains_key(1) && self.inner@.contains_key(2)),
    {
        proof {
            lemma_i32_ordered();
        }
        self.inner.contains_key(&0) && self.inner.contains_key(&1) && self.inner.contains_key(&2)
    }

    /// Open descriptors 0, 1 and 2 as `d0`, `d1` and `d2` where they are not open yet.
    pub fn fill_stdio(&mut self, d0: FileDesc<F>, d1: FileDesc<F>, d2: FileDesc<F>)
        ensures
            final(self).inner@.dom() == old(self).inner@.dom().insert(0).insert(1).insert(2),
            forall|fd: i32| #[trigger] old(self).inner@.contains_key(fd) ==> final(self).inner@[fd] == old(self).inner@[fd],
            !old(self).inner@.contains_key(0) ==> final(self).inner@[0] == d0,
            !old(self).inner@.contains_key(1) ==> final(self).inner@[1] == d1,
            !old(self).inner@.contains_key(2) ==> final(self).inner@[2] == d2,
            old(self).wf() ==> final(self).wf(),
    {
        proof {
            lemma_i32_ordered();
        }
        if !self.inner.contains_key(&0) {
            self.inner.insert(0, d0);
        }
        if !self.inner.contains_key(&1) {
            self.inner.insert(1, d1);
        }
        if !self.inner.contains_key(&2) {
            self.inner.insert(2, d2);
        }
        assert(self.inner@.dom() =~= old(self).inner@.dom().insert(0).insert(1).insert(2));
    }

    /// Clear this files table.
    pub fn clear(&mut self)
        ensures
            final(self).inner@ == Map::<i32, FileDesc<F>>::empty(),
    {
        self.inner.clear();
    }
}

/// A file installed by [`FDTable::insert_file`] is what [`FDTable::get_file`] finds under the
/// returned number, and it takes the lowest free number.
pub proof fn lemma_insert_then_get<F>(before: FDTable<F>, after: FDTable<F>, d: FileDesc<F>, fd: i32)
    requires
        lowest_free(before.inner@, 0) == Some(fd),
        after.inner@ == before.inner@.insert(fd, d),
    ensures
        after.inner@.contains_key(fd),
        after.inner@[fd] == d,
        !before.inner@.contains_key(fd),
        forall|j: int| 0 <= j < fd ==> before.inner@.contains_key(#[trigger] (j as i32)),
        forall|k: i32| k != fd ==> (#[trigger] after.inner@.contains_key(k) <==> before.inner@.contains_key(k)),
{
    lemma_lowest_free(before.inner@, 0);
}

/// After [`FDTable::remove_file`], [`FDTable::get_file`] finds nothing under that number.
pub proof fn lemma_remove_then_get<F>(before: FDTable<F>, after: FDTable<F>, fd: i32)
    requires
        after.inner@ == before.inner@.remove(fd),
    ensures
        !after.inner@.contains_key(fd),
        forall|k: i32| k != fd ==> (#[trigger] after.inner@.contains_key(k) <==> before.inner@.contains_key(k)),
{
}

} // verus!
