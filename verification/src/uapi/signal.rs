//! Signal numbers and the constants of the signal system calls.
use vstd::prelude::*;

verus! {

/// Signals that can be sent to a process or thread.
#[derive(Clone, Copy, Debug, PartialEq, Eq, Structural)]
pub enum Signal {
    SIGHUP,
    SIGINT,
    SIGQUIT,
    SIGILL,
    SIGTRAP,
    SIGABRT,
    SIGBUS,
    SIGFPE,
    SIGKILL,
    SIGUSR1,
    SIGSEGV,
    SIGUSR2,
    SIGPIPE,
    SIGALRM,
    SIGTERM,
    SIGSTKFLT,
    SIGCHLD,
    SIGCONT,
    SIGSTOP,
    SIGTSTP,
    SIGTTIN,
    SIGTTOU,
    SIGURG,
    SIGXCPU,
    SIGXFSZ,
    SIGVTALRM,
    SIGPROF,
    SIGWINCH,
    SIGPOLL,
    SIGPWR,
    SIGSYS,
    SIGCANCEL,
    SIGTIMER,
    SIGRTMIN,
    SIGRTMAX,
}

/// Number of signal numbers, including the unused zero.
pub const NSIG: i32 = 65;

/// Add the given signals to the mask.
pub const SIG_BLOCK: i32 = 0;
/// Remove the given signals from the mask.
pub const SIG_UNBLOCK: i32 = 1;
/// Replace the mask.
pub const SIG_SETMASK: i32 = 2;

/// Signal sent by a user process.
pub const SI_USER: i32 = 0;

/// The number of a signal.
pub open spec fn signal_number(s: Signal) -> i32 {
    match s {
        Signal::SIGHUP => 1,
        Signal::SIGINT => 2,
        Signal::SIGQUIT => 3,
        Signal::SIGILL => 4,
        Signal::SIGTRAP => 5,
        Signal::SIGABRT => 6,
        Signal::SIGBUS => 7,
        Signal::SIGFPE => 8,
        Signal::SIGKILL => 9,
        Signal::SIGUSR1 => 10,
        Signal::SIGSEGV => 11,
        Signal::SIGUSR2 => 12,
        Signal::SIGPIPE => 13,
        Signal::SIGALRM => 14,
        Signal::SIGTERM => 15,
        Signal::SIGSTKFLT => 16,
        Signal::SIGCHLD => 17,
        Signal::SIGCONT => 18,
        Signal::SIGSTOP => 19,
        Signal::SIGTSTP => 20,
        Signal::SIGTTIN => 21,
        Signal::SIGTTOU => 22,
        Signal::SIGURG => 23,
        Signal::SIGXCPU => 24,
        Signal::SIGXFSZ => 25,
        Signal::SIGVTALRM => 26,
        Signal::SIGPROF => 27,
        Signal::SIGWINCH => 28,
        Signal::SIGPOLL => 29,
        Signal::SIGPWR => 30,
        Signal::SIGSYS => 31,
        Signal::SIGCANCEL => 32,
        Signal::SIGTIMER => 33,
        Signal::SIGRTMIN => 35,
        Signal::SIGRTMAX => 64,
    }
}

/// Signal numbers lie between 1 and 64, and no two signals share one.
pub proof fn lemma_signal_numbers(a: Signal, b: Signal)
    ensures
        1 <= signal_number(a) <= 64,
        a != b ==> signal_number(a) != signal_number(b),
{
}

impl Signal {
    /// The number of this signal.
    pub fn number(self) -> (r: i32)
        ensures
            r == signal_number(self),
            0 < r < NSIG,
    {
        match self {
            Signal::SIGHUP => 1,
            Signal::SIGINT => 2,
            Signal::SIGQUIT => 3,
            Signal::SIGILL => 4,
            Signal::SIGTRAP => 5,
            Signal::SIGABRT => 6,
            Signal::SIGBUS => 7,
            Signal::SIGFPE => 8,
            Signal::SIGKILL => 9,
            Signal::SIGUSR1 => 10,
            Signal::SIGSEGV => 11,
            Signal::SIGUSR2 => 12,
            Signal::SIGPIPE => 13,
            Signal::SIGALRM => 14,
            Signal::SIGTERM => 15,
            Signal::SIGSTKFLT => 16,
            Signal::SIGCHLD => 17,
            Signal::SIGCONT => 18,
            Signal::SIGSTOP => 19,
            Signal::SIGTSTP => 20,
            Signal::SIGTTIN => 21,
            Signal::SIGTTOU => 22,
            Signal::SIGURG => 23,
            Signal::SIGXCPU => 24,
            Signal::SIGXFSZ => 25,
            Signal::SIGVTALRM => 26,
            Signal::SIGPROF => 27,
            Signal::SIGWINCH => 28,
            Signal::SIGPOLL => 29,
            Signal::SIGPWR => 30,
            Signal::SIGSYS => 31,
            Signal::SIGCANCEL => 32,
            Signal::SIGTIMER => 33,
            Signal::SIGRTMIN => 35,
            Signal::SIGRTMAX => 64,
        }
    }
}

} // verus!
