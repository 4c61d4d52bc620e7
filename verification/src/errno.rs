//! Error numbers returned by kernel operations.
use vstd::prelude::*;

verus! {

/// POSIX error numbers used by the kernel.
#[derive(Clone, Copy, Debug, PartialEq, Eq, Structural)]
pub enum Errno {
    EPERM,
    ENOENT,
    ESRCH,
    EINTR,
    ENXIO,
    ENOEXEC,
    EBADF,
    ECHILD,
    ENOMEM,
    EFAULT,
    ENODEV,
    EINVAL,
    EMFILE,
    ENOTTY,
    EMLINK,
    ERANGE,
    ENOSYS,
    ETIMEDOUT,
}

/// Numeric value of an error number.
pub open spec fn errno_code(e: Errno) -> i32 {
    match e {
        Errno::EPERM => 1,
        Errno::ENOENT => 2,
        Errno::ESRCH => 3,
        Errno::EINTR => 4,
        Errno::ENXIO => 6,
        Errno::ENOEXEC => 8,
        Errno::EBADF => 9,
        Errno::ECHILD => 10,
        Errno::ENOMEM => 12,
        Errno::EFAULT => 14,
        Errno::ENODEV => 19,
        Errno::EINVAL => 22,
        Errno::EMFILE => 24,
        Errno::ENOTTY => 25,
        Errno::EMLINK => 31,
        Errno::ERANGE => 34,
        Errno::ENOSYS => 38,
        Errno::ETIMEDOUT => 110,
    }
}

/// Each error has the number that the POSIX ABI gives it, and no two share one.
pub proof fn lemma_errno_numbers(a: Errno, b: Errno)
    ensures
        errno_code(Errno::EPERM) == 1 && errno_code(Errno::ENOENT) == 2 && errno_code(Errno::ESRCH) == 3
            && errno_code(Errno::EINTR) == 4 && errno_code(Errno::ENXIO) == 6 && errno_code(Errno::ENOEXEC) == 8
            && errno_code(Errno::EBADF) == 9 && errno_code(Errno::ECHILD) == 10 && errno_code(Errno::ENOMEM) == 12
            && errno_code(Errno::EFAULT) == 14 && errno_code(Errno::ENODEV) == 19 && errno_code(Errno::EINVAL) == 22
            && errno_code(Errno::EMFILE) == 24 && errno_code(Errno::ENOTTY) == 25 && errno_code(Errno::EMLINK) == 31
            && errno_code(Errno::ERANGE) == 34 && errno_code(Errno::ENOSYS) == 38 && errno_code(Errno::ETIMEDOUT) == 110,
        a != b ==> errno_code(a) != errno_code(b),
{
}

/// Result type of fallible kernel operations.
pub type EResult<T> = Result<T, Errno>;

impl Errno {
    /// The numeric value of this error number.
    pub fn code(self) -> (r: i32)
        ensures
            r == errno_code(self),
            0 < r <= 110,
    {
        match self {
            Errno::EPERM => 1,
            Errno::ENOENT => 2,
            Errno::ESRCH => 3,
            Errno::EINTR => 4,
            Errno::ENXIO => 6,
            Errno::ENOEXEC => 8,
            Errno::EBADF => 9,
            Errno::ECHILD => 10,
            Errno::ENOMEM => 12,
            Errno::EFAULT => 14,
            Errno::ENODEV => 19,
            Errno::EINVAL => 22,
            Errno::EMFILE => 24,
            Errno::ENOTTY => 25,
            Errno::EMLINK => 31,
            Errno::ERANGE => 34,
            Errno::ENOSYS => 38,
            Errno::ETIMEDOUT => 110,
        }
    }
}

} // verus!
