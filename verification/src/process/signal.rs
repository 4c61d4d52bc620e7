//! What a signal does to the process that receives it: the handler table, which queued signal
//! is delivered next, and the action taken on delivery.
use vstd::prelude::*;
use crate::errno::{Errno, EResult};
use crate::process::syscall::check_sigaction;
use crate::uapi::signal::{signal_number, Signal, NSIG};

verus! {

/// Handler value that asks for the signal's default action.
pub const SIG_DFL: usize = 0;
/// Handler value that asks for the signal to be ignored.
pub const SIG_IGN: usize = 1;
/// Action flag: do not block the signal while its handler runs.
pub const SA_NODEFER: u64 = 0x4000_0000;

/// A queued signal: the fields of `siginfo_t` that the kernel's decisions read, and the
/// faulting address that delivery hands to the handler.
#[derive(Clone, Copy, Debug, PartialEq, Eq, Structural)]
pub struct SigInfo {
    pub signo: i32,
    pub code: i32,
    pub errno: i32,
    /// Process that sent the signal.
    pub pid: i32,
    /// Faulting address, for the signals raised by a trap.
    pub addr: usize,
}

/// What a process has asked to happen on a signal.
#[derive(Clone, Copy, Debug, PartialEq, Eq, Structural)]
pub struct SigAction {
    /// Address of the handler, or [`SIG_DFL`] or [`SIG_IGN`].
    pub handler: usize,
    pub flags: u64,
    /// Address of the code that returns from the handler.
    pub restorer: usize,
    /// Signals blocked while the handler runs.
    pub mask: u128,
}

/// Whether signal number `n` is in the set `set`: bit `n` stands for signal number `n`.
pub open spec fn sigset_has(set: u128, n: int) -> bool {
    0 <= n < 128 && (set >> (n as u128)) & 1 == 1
}

/// Test whether signal number `n` is in the set `set`.
pub fn sigset_test(set: u128, n: i32) -> (r: bool)
    ensures
        r == sigset_has(set, n as int),
{
    if n < 0 || n >= 128 {
        false
    } else {
        (set >> (n as u128)) & 1 == 1
    }
}

/// The action every signal has until the process changes it.
pub open spec fn default_action() -> SigAction {
    SigAction { handler: SIG_DFL, flags: 0, restorer: 0, mask: 0 }
}

/// A process' signal handler table.
pub struct Sigtab {
    pub table: Vec<SigAction>,
}

impl Sigtab {
    /// One entry for each signal number.
    pub open spec fn wf(&self) -> bool {
        self.table@.len() == NSIG
    }

    /// A table in which every signal takes its default action.
    pub fn new() -> (r: Self)
        ensures
            r.wf(),
            forall|i: int| 0 <= i < NSIG ==> #[trigger] r.table@[i] == default_action(),
    {
        let mut table: Vec<SigAction> = Vec::new();
        let mut i: i32 = 0;
        while i < NSIG
            invariant
                0 <= i <= NSIG,
                table@.len() == i,
                forall|j: int| 0 <= j < i ==> #[trigger] table@[j] == default_action(),
            decreases NSIG - i,
        {
            table.push(SigAction { handler: SIG_DFL, flags: 0, restorer: 0, mask: 0 });
            i = i + 1;
        }
        Sigtab { table }
    }

    /// The action for signal number `signo`.
    pub fn get(&self, signo: i32) -> (r: SigAction)
        requires
            self.wf(),
            0 <= signo < NSIG,
        ensures
            r == self.table@[signo as int],
    {
        self.table[signo as usize]
    }

    /// Change the action for signal `signum` to `new`, or back to the default with `None`, as
    /// `sigaction` does; returns the action it had. The actions of `SIGKILL` and `SIGSTOP`, and
    /// numbers out of range, are refused with `EINVAL`.
    pub fn set_action(&mut self, signum: i32, new: Option<SigAction>) -> (r: EResult<SigAction>)
        requires
            old(self).wf(),
        ensures
            final(self).wf(),
            (signum < 0 || signum >= NSIG || signum == signal_number(Signal::SIGSTOP) || signum == signal_number(
                Signal::SIGKILL,
            )) ==> r == Err::<SigAction, Errno>(Errno::EINVAL) && final(self).table@ == old(self).table@,
            !(signum < 0 || signum >= NSIG || signum == signal_number(Signal::SIGSTOP) || signum == signal_number(
                Signal::SIGKILL,
            )) ==> {
                &&& r == Ok::<SigAction, Errno>(old(self).table@[signum as int])
                &&& final(self).table@ == old(self).table@.update(
                    signum as int,
                    match new {
                        Some(a) => a,
                        None => default_action(),
                    },
                )
            },
    {
        match check_sigaction(signum) {
            Ok(()) => {},
            Err(e) => {
                return Err(e);
            },
        }
        let prev = self.table[signum as usize];
        let action = match new {
            Some(a) => a,
            None => SigAction { handler: SIG_DFL, flags: 0, restorer: 0, mask: 0 },
        };
        self.table.set(signum as usize, action);
        Ok(prev)
    }
}

/// Whether a queued signal can be delivered under the blocked-signal mask `mask`: `SIGKILL`
/// and `SIGSTOP` always can, the others when they are not blocked.
pub open spec fn deliverable(info: SigInfo, mask: u128) -> bool {
    info.signo == signal_number(Signal::SIGSTOP) || info.signo == signal_number(Signal::SIGKILL)
        || !sigset_has(mask, info.signo as int)
}

/// Index of the first signal from `from` on in `q` that can be delivered, or the length of `q`.
pub open spec fn first_deliverable(q: Seq<SigInfo>, mask: u128, from: int) -> int
    decreases q.len() - from,
{
    if from < 0 || from >= q.len() {
        q.len() as int
    } else if deliverable(q[from], mask) {
        from
    } else {
        first_deliverable(q, mask, from + 1)
    }
}

/// The index that [`first_deliverable`] gives is that of a deliverable signal, and none before
/// it from `from` on is.
pub proof fn lemma_first_deliverable(q: Seq<SigInfo>, mask: u128, from: int)
    requires
        0 <= from <= q.len(),
    ensures
        from <= first_deliverable(q, mask, from) <= q.len(),
        first_deliverable(q, mask, from) < q.len() ==> deliverable(q[first_deliverable(q, mask, from)], mask),
        forall|j: int| from <= j < first_deliverable(q, mask, from) ==> !deliverable(#[trigger] q[j], mask),
    decreases q.len() - from,
{
    if from < q.len() && !deliverable(q[from], mask) {
        lemma_first_deliverable(q, mask, from + 1);
    }
}

/// What taking the next signal from queue `q` gives, and the queue it leaves.
pub open spec fn take_spec(q: Seq<SigInfo>, mask: u128, is_poll: bool) -> (Option<SigInfo>, Seq<SigInfo>) {
    let i = first_deliverable(q, mask, 0);
    if i >= q.len() {
        (None, q)
    } else if is_poll {
        (Some(q[i]), q)
    } else {
        (Some(q[i]), q.remove(i))
    }
}

/// Take the first deliverable signal from `queue`; with `is_poll` it stays in the queue.
pub fn take_deliverable(queue: &mut Vec<SigInfo>, mask: u128, is_poll: bool) -> (r: Option<SigInfo>)
    ensures
        r == take_spec(old(queue)@, mask, is_poll).0,
        final(queue)@ == take_spec(old(queue)@, mask, is_poll).1,
{
    let mut i: usize = 0;
    while i < queue.len()
        invariant
            i <= queue@.len(),
            queue@ == old(queue)@,
            first_deliverable(queue@, mask, 0) == first_deliverable(queue@, mask, i as int),
        decreases queue@.len() - i,
    {
        let info = queue[i];
        let signo = info.signo;
        if signo == Signal::SIGSTOP.number() || signo == Signal::SIGKILL.number() || !sigset_test(mask, signo) {
            if !is_poll {
                queue.remove(i);
            }
            return Some(info);
        }
        i = i + 1;
    }
    None
}

/// The first unblocked signal for a thread: from its own queue first, then from its process'
/// queue; unless `is_poll`, it leaves the queue it came from.
pub fn get_async_sig(
    thread_queue: &mut Vec<SigInfo>,
    process_queue: &mut Vec<SigInfo>,
    mask: u128,
    is_poll: bool,
) -> (r: Option<SigInfo>)
    ensures
        take_spec(old(thread_queue)@, mask, is_poll).0 is Some ==> {
            &&& r == take_spec(old(thread_queue)@, mask, is_poll).0
            &&& final(thread_queue)@ == take_spec(old(thread_queue)@, mask, is_poll).1
            &&& final(process_queue)@ == old(process_queue)@
        },
        take_spec(old(thread_queue)@, mask, is_poll).0 is None ==> {
            &&& r == take_spec(old(process_queue)@, mask, is_poll).0
            &&& final(thread_queue)@ == old(thread_queue)@
            &&& final(process_queue)@ == take_spec(old(process_queue)@, mask, is_poll).1
        },
{
    match take_deliverable(thread_queue, mask, is_poll) {
        Some(info) => Some(info),
        None => take_deliverable(process_queue, mask, is_poll),
    }
}

/// What receiving a signal does to a process.
#[derive(Clone, Copy, Debug, PartialEq, Eq, Structural)]
pub enum Disposition {
    /// The process dies of the signal.
    Die,
    /// Nothing happens.
    Ignore,
    /// The process is to stop; stopping processes is not implemented yet.
    Stop,
    /// The process is to continue; continuing processes is not implemented yet.
    Continue,
    /// The process' handler runs.
    Handle,
}

/// Signals whose default action kills the process.
pub open spec fn default_kills(signo: i32) -> bool {
    signo == signal_number(Signal::SIGABRT) || signo == signal_number(Signal::SIGBUS)
        || signo == signal_number(Signal::SIGFPE) || signo == signal_number(Signal::SIGILL)
        || signo == signal_number(Signal::SIGQUIT) || signo == signal_number(Signal::SIGSEGV)
        || signo == signal_number(Signal::SIGSYS) || signo == signal_number(Signal::SIGTRAP)
        || signo == signal_number(Signal::SIGXCPU) || signo == signal_number(Signal::SIGXFSZ)
        || signo == signal_number(Signal::SIGALRM) || signo == signal_number(Signal::SIGHUP)
        || signo == signal_number(Signal::SIGINT) || signo == signal_number(Signal::SIGPIPE)
        || signo == signal_number(Signal::SIGPROF) || signo == signal_number(Signal::SIGPWR)
        || signo == signal_number(Signal::SIGSTKFLT) || signo == signal_number(Signal::SIGTERM)
        || signo == signal_number(Signal::SIGUSR1) || signo == signal_number(Signal::SIGUSR2)
        || signo == signal_number(Signal::SIGVTALRM)
}

/// Signals whose default action stops the process.
pub open spec fn default_stops(signo: i32) -> bool {
    signo == signal_number(Signal::SIGSTOP) || signo == signal_number(Signal::SIGTTIN)
        || signo == signal_number(Signal::SIGTTOU)
}

/// Signals raised by a trap of the receiving thread itself, which it may not ignore.
pub open spec fn is_trap(signo: i32) -> bool {
    signo == signal_number(Signal::SIGSEGV) || signo == signal_number(Signal::SIGTRAP)
        || signo == signal_number(Signal::SIGILL) || signo == signal_number(Signal::SIGFPE)
}

/// What signal `info` does to process `own_pid` whose handler for it is `handler`.
pub open spec fn disposition_spec(info: SigInfo, handler: usize, own_pid: i32) -> Disposition {
    if info.signo == signal_number(Signal::SIGKILL) {
        Disposition::Die
    } else if handler == SIG_DFL {
        if default_kills(info.signo) {
            Disposition::Die
        } else if default_stops(info.signo) {
            Disposition::Stop
        } else if info.signo == signal_number(Signal::SIGCONT) {
            Disposition::Continue
        } else {
            Disposition::Ignore
        }
    } else if handler == SIG_IGN {
        if is_trap(info.signo) && info.pid == own_pid {
            Disposition::Die
        } else {
            Disposition::Ignore
        }
    } else {
        Disposition::Handle
    }
}

/// Decide what signal `info` does to process `own_pid` whose handler for it is `handler`.
/// `SIGKILL` always kills; a handler installed for it does nothing.
pub fn disposition(info: &SigInfo, handler: usize, own_pid: i32) -> (r: Disposition)
    ensures
        r == disposition_spec(*info, handler, own_pid),
{
    let s = info.signo;
    if s == Signal::SIGKILL.number() {
        Disposition::Die
    } else if handler == SIG_DFL {
        if s == Signal::SIGABRT.number() || s == Signal::SIGBUS.number() || s == Signal::SIGFPE.number()
            || s == Signal::SIGILL.number() || s == Signal::SIGQUIT.number() || s == Signal::SIGSEGV.number()
            || s == Signal::SIGSYS.number() || s == Signal::SIGTRAP.number() || s == Signal::SIGXCPU.number()
            || s == Signal::SIGXFSZ.number() || s == Signal::SIGALRM.number() || s == Signal::SIGHUP.number()
            || s == Signal::SIGINT.number() || s == Signal::SIGPIPE.number() || s == Signal::SIGPROF.number()
            || s == Signal::SIGPWR.number() || s == Signal::SIGSTKFLT.number() || s == Signal::SIGTERM.number()
            || s == Signal::SIGUSR1.number() || s == Signal::SIGUSR2.number() || s == Signal::SIGVTALRM.number() {
            Disposition::Die
        } else if s == Signal::SIGSTOP.number() || s == Signal::SIGTTIN.number() || s == Signal::SIGTTOU.number() {
            Disposition::Stop
        } else if s == Signal::SIGCONT.number() {
            Disposition::Continue
        } else {
            Disposition::Ignore
        }
    } else if handler == SIG_IGN {
        if (s == Signal::SIGSEGV.number() || s == Signal::SIGTRAP.number() || s == Signal::SIGILL.number()
            || s == Signal::SIGFPE.number()) && info.pid == own_pid {
            Disposition::Die
        } else {
            Disposition::Ignore
        }
    } else {
        Disposition::Handle
    }
}

/// Polling for a signal gives the one that taking it would, and leaves the queue as it was.
pub proof fn lemma_poll_then_take(q: Seq<SigInfo>, mask: u128)
    ensures
        take_spec(q, mask, true).0 == take_spec(q, mask, false).0,
        take_spec(q, mask, true).1 == q,
        take_spec(q, mask, false).0 is None ==> take_spec(q, mask, false).1 == q,
        take_spec(q, mask, false).0 is Some ==> take_spec(q, mask, false).1.len() + 1 == q.len(),
{
    lemma_first_deliverable(q, mask, 0);
}

/// Taking a signal gives the first one in queue order whose bit in the mask is clear, or that
/// is kill (9) or stop (19), which no mask blocks; every signal before it is blocked. Taking
/// removes that one signal and keeps the others in order; polling removes nothing; when every
/// signal is blocked, nothing is given and the queue stays.
pub proof fn lemma_take_first_unblocked(q: Seq<SigInfo>, mask: u128, is_poll: bool)
    ensures
        take_spec(q, mask, is_poll).0 is None ==> take_spec(q, mask, is_poll).1 == q && forall|j: int| 0 <= j < q.len()
            ==> (#[trigger] q[j]).signo != 9 && q[j].signo != 19 && 0 <= q[j].signo < 128
                && (mask >> (q[j].signo as u128)) & 1 == 1,
        take_spec(q, mask, is_poll).0 matches Some(sig) ==> exists|i: int| {
            &&& 0 <= i < q.len()
            &&& q[i] == sig
            &&& (sig.signo == 9 || sig.signo == 19 || !(0 <= sig.signo < 128 && (mask >> (sig.signo as u128)) & 1 == 1))
            &&& forall|j: int| 0 <= j < i ==> (#[trigger] q[j]).signo != 9 && q[j].signo != 19 && 0 <= q[j].signo < 128
                && (mask >> (q[j].signo as u128)) & 1 == 1
            &&& take_spec(q, mask, is_poll).1 == if is_poll { q } else { q.take(i) + q.skip(i + 1) }
        },
{
    lemma_first_deliverable(q, mask, 0);
    let i = first_deliverable(q, mask, 0);
    if i < q.len() {
        assert(q.remove(i) =~= q.take(i) + q.skip(i + 1));
        assert(q[i] == take_spec(q, mask, is_poll).0->Some_0);
    }
}

/// `SIGKILL` and `SIGSTOP` are delivered whatever the mask blocks.
pub proof fn lemma_unblockable(info: SigInfo, mask: u128)
    requires
        info.signo == signal_number(Signal::SIGKILL) || info.signo == signal_number(Signal::SIGSTOP),
    ensures
        deliverable(info, mask),
{
}

/// `SIGKILL` kills the process whatever handler it has installed.
pub proof fn lemma_sigkill_kills(info: SigInfo, handler: usize, own_pid: i32)
    requires
        info.signo == signal_number(Signal::SIGKILL),
    ensures
        disposition_spec(info, handler, own_pid) == Disposition::Die,
{
}

/// With the default handler (0), the signals whose default action ends the process kill it:
/// hangup 1, interrupt 2, quit 3, illegal instruction 4, trap 5, abort 6, bus error 7,
/// arithmetic error 8, kill 9, user signals 10 and 12, segmentation fault 11, broken pipe 13,
/// alarm 14, termination 15, stack fault 16, CPU and file-size limits 24 and 25, virtual and
/// profiling timers 26 and 27, power failure 30 and bad system call 31. Stop 19 and the
/// terminal's input 21 and output 22 stop it, continue 18 continues it, and every other
/// number leaves it alone.
pub proof fn lemma_default_dispositions(info: SigInfo, own_pid: i32)
    ensures
        ({
            let n = info.signo;
            n == 1 || n == 2 || n == 3 || n == 4 || n == 5 || n == 6 || n == 7 || n == 8 || n == 9 || n == 10
                || n == 11 || n == 12 || n == 13 || n == 14 || n == 15 || n == 16 || n == 24 || n == 25 || n == 26
                || n == 27 || n == 30 || n == 31
        }) ==> disposition_spec(info, 0, own_pid) == Disposition::Die,
        (info.signo == 19 || info.signo == 21 || info.signo == 22) ==> disposition_spec(info, 0, own_pid)
            == Disposition::Stop,
        info.signo == 18 ==> disposition_spec(info, 0, own_pid) == Disposition::Continue,
        ({
            let n = info.signo;
            !(1 <= n <= 16 || n == 18 || n == 19 || n == 21 || n == 22 || n == 24 || n == 25 || n == 26 || n == 27
                || n == 30 || n == 31)
        }) ==> disposition_spec(info, 0, own_pid) == Disposition::Ignore,
{
}

/// With the ignoring handler (1), a signal is ignored, except that kill 9 still kills and a
/// synchronous trap the process raised itself (illegal instruction 4, trap 5, arithmetic error 8,
/// segmentation fault 11) kills it; with any other handler, every signal but kill 9 runs the
/// handler.
pub proof fn lemma_installed_dispositions(info: SigInfo, handler: usize, own_pid: i32)
    ensures
        info.signo == 9 ==> disposition_spec(info, handler, own_pid) == Disposition::Die,
        handler == 1 && info.signo != 9 ==> disposition_spec(info, handler, own_pid) == if info.pid == own_pid
            && (info.signo == 4 || info.signo == 5 || info.signo == 8 || info.signo == 11) {
            Disposition::Die
        } else {
            Disposition::Ignore
        },
        handler != 0 && handler != 1 && info.signo != 9 ==> disposition_spec(info, handler, own_pid)
            == Disposition::Handle,
{
}

/// Exit status of a process killed by signal `signal`: the wait status that says the process
/// was signalled, with the signal in the third byte.
pub fn die_status(signal: i32) -> (r: i32)
    requires
        0 <= signal < NSIG,
    ensures
        r == ((signal & 0xff) << 16u32) | 0x40,
{
    crate::uapi::wait::w_signalled(signal)
}

/// The blocked-signal mask on entry to a handler, as [`mask_after_entry`] makes it, or `None`
/// when the action would block the number in the signal's code field and that is no signal
/// number, so that the handler cannot be entered.
pub fn handler_mask(mask: u128, action: &SigAction, code: i32) -> (r: Option<u128>)
    ensures
        r is None <==> action.flags & SA_NODEFER == 0 && !(0 <= code < NSIG),
        r matches Some(m) ==> forall|n: int| #[trigger] sigset_has(m, n) <==> sigset_has(mask, n) || sigset_has(action.mask, n)
            || (action.flags & SA_NODEFER == 0 && n == code),
{
    if action.flags & SA_NODEFER == 0 && (code < 0 || code >= NSIG) {
        None
    } else {
        Some(mask_after_entry(mask, action, code))
    }
}

/// The blocked-signal mask while a handler runs: the mask before, the action's own mask and,
/// unless the action has [`SA_NODEFER`], the number in the signal's code field.
pub fn mask_after_entry(mask: u128, action: &SigAction, code: i32) -> (r: u128)
    requires
        action.flags & SA_NODEFER == 0 ==> 0 <= code < NSIG,
    ensures
        forall|n: int| #[trigger] sigset_has(r, n) <==> sigset_has(mask, n) || sigset_has(action.mask, n)
            || (action.flags & SA_NODEFER == 0 && n == code),
{
    let m = if action.flags & SA_NODEFER == 0 {
        mask | (1u128 << (code as u128))
    } else {
        mask
    };
    let r = m | action.mask;
    proof {
        let nodefer = action.flags & SA_NODEFER != 0;
        let am = action.mask;
        assert forall|n: int| #[trigger] sigset_has(r, n) <==> sigset_has(mask, n) || sigset_has(am, n)
            || (!nodefer && n == code) by {
            if 0 <= n < 128 {
                let k = n as u128;
                if nodefer {
                    assert(((mask | am) >> k) & 1 == 1 <==> (mask >> k) & 1 == 1 || (am >> k) & 1 == 1) by (bit_vector)
                        requires
                            k < 128,
                    ;
                } else {
                    let c = code as u128;
                    assert(((mask | (1u128 << c) | am) >> k) & 1 == 1 <==> (mask >> k) & 1 == 1 || (am >> k) & 1 == 1
                        || k == c) by (bit_vector)
                        requires
                            k < 128,
                            c < 65,
                    ;
                }
            }
        }
    }
    r
}

} // verus!
