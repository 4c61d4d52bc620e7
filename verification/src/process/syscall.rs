//! The system-call interface: which call a number and six argument registers name, and what
//! a call's outcome leaves in the return register.
use vstd::prelude::*;
use crate::errno::{Errno, EResult, errno_code};
use crate::config::PAGE_SIZE;
use crate::mem::map::ANONYMOUS;
use crate::uapi::uname::utsname;
use vstd::string::StringSliceAdditionalSpecFns;
use crate::uapi::signal::{Signal, signal_number, NSIG, SIG_BLOCK, SIG_UNBLOCK, SIG_SETMASK};

verus! {

/// A system call with its arguments, as the calling thread passed them; pointers are user
/// addresses.
#[derive(Clone, Copy, Debug, PartialEq, Eq, Structural)]
#[allow(inconsistent_fields)]
pub enum Syscall {
    ThreadYieldTime,
    ThreadSleep { delay: u64 },
    ThreadCreate { entry: usize, arg: usize, priority: u32 },
    ThreadDetach { thread_id: i32 },
    ThreadJoin { thread_id: i32 },
    ThreadExit { code: i32 },
    ProcExit { code: i32 },
    ProcFork,
    ProcExec { path: usize, argv: usize, envp: usize },
    ProcSigaction { signum: i32, newhandler: usize, oldhandler: usize },
    ProcSigret,
    ProcWaitpid { pid: i32, wstatus: usize, options: i32 },
    FsOpen { at: i32, path: usize, oflags: i32 },
    FsClose { fd: i32 },
    FsRead { fd: i32, buf: usize, len: usize },
    FsWrite { fd: i32, buf: usize, len: usize },
    FsGetdents { fd: i32, buf: usize, len: usize },
    FsRename { old_at: i32, old_path: usize, new_at: i32, new_path: usize, flags: u32 },
    FsStat { fd: i32, path: usize, follow_link: bool, stat_out: usize },
    FsMkdir { at: i32, path: usize },
    FsRmdir { at: i32, path: usize },
    FsLink { old_at: i32, old_path: usize, new_at: i32, new_path: usize, flags: u32 },
    FsUnlink { at: i32, path: usize },
    FsMkfifo { at: i32, path: usize },
    FsPipe { fds: usize, flags: i32 },
    FsSeek { fd: i32, offset: i64, whence: i32 },
    MemMap { address: usize, size: usize, prot: i32, flags: i32, fd: i32, offset: i64 },
    MemUnmap { address: usize, size: usize },
    MemProtect { address: usize, size: usize, prot: i32 },
    SysLog { message: usize, len: usize },
    TimeGettime { clkid: i32, time: usize },
    ThreadKill { thread_id: i32, signum: i32 },
    ProcKill { pid: i32, signum: i32 },
    ProcGetid { getid_type: i32 },
    FsSymlink { link_target: usize, at: i32, path: usize },
    FsDup { fd: i32, flags: i32, newfd: i32 },
    ThreadSigmask { how: i32, set: usize, oldset: usize },
    SysUname { name: usize },
    FsIsatty { fd: i32 },
    FsTcgetattr { fd: i32, attr: usize },
    FsTcsetattr { fd: i32, attr: usize },
    FsGetcwd { buf: usize, len: usize },
    FsChdir { at: i32, path: usize },
    FsGetfd { fd: i32 },
    FsSetfd { fd: i32, flags: i32 },
    FsGetfl { fd: i32 },
    FsSetfl { fd: i32, flags: i32 },
}

/// The C type in which a system call returns its result.
#[derive(Clone, Copy, Debug, PartialEq, Eq, Structural)]
pub enum RetKind {
    /// `int`.
    CInt,
    /// `ssize_t`.
    ISize,
    /// `int64_t`.
    I64,
}

/// The system call that number `sysno` names, with its arguments taken from `args`.
pub open spec fn decode_spec(sysno: usize, args: [usize; 6]) -> Option<Syscall> {
    match sysno {
        0 => Some(Syscall::ThreadYieldTime),
        1 => Some(Syscall::ThreadSleep { delay: args[0] as u64 }),
        2 => Some(Syscall::ThreadCreate { entry: args[0], arg: args[1], priority: args[2] as u32 }),
        3 => Some(Syscall::ThreadDetach { thread_id: args[0] as i32 }),
        4 => Some(Syscall::ThreadJoin { thread_id: args[0] as i32 }),
        5 => Some(Syscall::ThreadExit { code: args[0] as i32 }),
        6 => Some(Syscall::ProcExit { code: args[0] as i32 }),
        7 => Some(Syscall::ProcFork),
        8 => Some(Syscall::ProcExec { path: args[0], argv: args[1], envp: args[2] }),
        9 => Some(Syscall::ProcSigaction { signum: args[0] as i32, newhandler: args[1], oldhandler: args[2] }),
        10 => Some(Syscall::ProcSigret),
        11 => Some(Syscall::ProcWaitpid { pid: args[0] as i32, wstatus: args[1], options: args[2] as i32 }),
        12 => Some(Syscall::FsOpen { at: args[0] as i32, path: args[1], oflags: args[2] as i32 }),
        13 => Some(Syscall::FsClose { fd: args[0] as i32 }),
        14 => Some(Syscall::FsRead { fd: args[0] as i32, buf: args[1], len: args[2] }),
        15 => Some(Syscall::FsWrite { fd: args[0] as i32, buf: args[1], len: args[2] }),
        16 => Some(Syscall::FsGetdents { fd: args[0] as i32, buf: args[1], len: args[2] }),
        17 => Some(Syscall::FsRename { old_at: args[0] as i32, old_path: args[1], new_at: args[2] as i32, new_path: args[3], flags: args[4] as u32 }),
        18 => Some(Syscall::FsStat { fd: args[0] as i32, path: args[1], follow_link: args[2] != 0, stat_out: args[3] }),
        19 => Some(Syscall::FsMkdir { at: args[0] as i32, path: args[1] }),
        20 => Some(Syscall::FsRmdir { at: args[0] as i32, path: args[1] }),
        21 => Some(Syscall::FsLink { old_at: args[0] as i32, old_path: args[1], new_at: args[2] as i32, new_path: args[3], flags: args[4] as u32 }),
        22 => Some(Syscall::FsUnlink { at: args[0] as i32, path: args[1] }),
        23 => Some(Syscall::FsMkfifo { at: args[0] as i32, path: args[1] }),
        24 => Some(Syscall::FsPipe { fds: args[0], flags: args[1] as i32 }),
        25 => Some(Syscall::FsSeek { fd: args[0] as i32, offset: args[1] as i64, whence: args[2] as i32 }),
        26 => Some(Syscall::MemMap { address: args[0], size: args[1], prot: args[2] as i32, flags: args[3] as i32, fd: args[4] as i32, offset: args[5] as i64 }),
        27 => Some(Syscall::MemUnmap { address: args[0], size: args[1] }),
        28 => Some(Syscall::MemProtect { address: args[0], size: args[1], prot: args[2] as i32 }),
        29 => Some(Syscall::SysLog { message: args[0], len: args[1] }),
        30 => Some(Syscall::TimeGettime { clkid: args[0] as i32, time: args[1] }),
        31 => Some(Syscall::ThreadKill { thread_id: args[0] as i32, signum: args[1] as i32 }),
        32 => Some(Syscall::ProcKill { pid: args[0] as i32, signum: args[1] as i32 }),
        33 => Some(Syscall::ProcGetid { getid_type: args[0] as i32 }),
        34 => Some(Syscall::FsSymlink { link_target: args[0], at: args[1] as i32, path: args[2] }),
        35 => Some(Syscall::FsDup { fd: args[0] as i32, flags: args[1] as i32, newfd: args[2] as i32 }),
        36 => Some(Syscall::ThreadSigmask { how: args[0] as i32, set: args[1], oldset: args[2] }),
        37 => Some(Syscall::SysUname { name: args[0] }),
        38 => Some(Syscall::FsIsatty { fd: args[0] as i32 }),
        39 => Some(Syscall::FsTcgetattr { fd: args[0] as i32, attr: args[1] }),
        40 => Some(Syscall::FsTcsetattr { fd: args[0] as i32, attr: args[1] }),
        41 => Some(Syscall::FsGetcwd { buf: args[0], len: args[1] }),
        42 => Some(Syscall::FsChdir { at: args[0] as i32, path: args[1] }),
        43 => Some(Syscall::FsGetfd { fd: args[0] as i32 }),
        44 => Some(Syscall::FsSetfd { fd: args[0] as i32, flags: args[1] as i32 }),
        45 => Some(Syscall::FsGetfl { fd: args[0] as i32 }),
        46 => Some(Syscall::FsSetfl { fd: args[0] as i32, flags: args[1] as i32 }),
        _ => None,
    }
}

/// The C type in which a system call returns its result.
pub open spec fn ret_kind(call: Syscall) -> RetKind {
    match call {
        Syscall::ThreadYieldTime => RetKind::CInt,
        Syscall::ThreadSleep { .. } => RetKind::CInt,
        Syscall::ThreadCreate { .. } => RetKind::CInt,
        Syscall::ThreadDetach { .. } => RetKind::CInt,
        Syscall::ThreadJoin { .. } => RetKind::CInt,
        Syscall::ThreadExit { .. } => RetKind::CInt,
        Syscall::ProcExit { .. } => RetKind::CInt,
        Syscall::ProcFork => RetKind::CInt,
        Syscall::ProcExec { .. } => RetKind::CInt,
        Syscall::ProcSigaction { .. } => RetKind::CInt,
        Syscall::ProcSigret => RetKind::CInt,
        Syscall::ProcWaitpid { .. } => RetKind::CInt,
        Syscall::FsOpen { .. } => RetKind::CInt,
        Syscall::FsClose { .. } => RetKind::CInt,
        Syscall::FsRead { .. } => RetKind::ISize,
        Syscall::FsWrite { .. } => RetKind::ISize,
        Syscall::FsGetdents { .. } => RetKind::ISize,
        Syscall::FsRename { .. } => RetKind::CInt,
        Syscall::FsStat { .. } => RetKind::CInt,
        Syscall::FsMkdir { .. } => RetKind::CInt,
        Syscall::FsRmdir { .. } => RetKind::CInt,
        Syscall::FsLink { .. } => RetKind::CInt,
        Syscall::FsUnlink { .. } => RetKind::CInt,
        Syscall::FsMkfifo { .. } => RetKind::CInt,
        Syscall::FsPipe { .. } => RetKind::CInt,
        Syscall::FsSeek { .. } => RetKind::I64,
        Syscall::MemMap { .. } => RetKind::ISize,
        Syscall::MemUnmap { .. } => RetKind::CInt,
        Syscall::MemProtect { .. } => RetKind::CInt,
        Syscall::SysLog { .. } => RetKind::CInt,
        Syscall::TimeGettime { .. } => RetKind::CInt,
        Syscall::ThreadKill { .. } => RetKind::CInt,
        Syscall::ProcKill { .. } => RetKind::CInt,
        Syscall::ProcGetid { .. } => RetKind::I64,
        Syscall::FsSymlink { .. } => RetKind::CInt,
        Syscall::FsDup { .. } => RetKind::CInt,
        Syscall::ThreadSigmask { .. } => RetKind::CInt,
        Syscall::SysUname { .. } => RetKind::CInt,
        Syscall::FsIsatty { .. } => RetKind::CInt,
        Syscall::FsTcgetattr { .. } => RetKind::CInt,
        Syscall::FsTcsetattr { .. } => RetKind::CInt,
        Syscall::FsGetcwd { .. } => RetKind::CInt,
        Syscall::FsChdir { .. } => RetKind::CInt,
        Syscall::FsGetfd { .. } => RetKind::CInt,
        Syscall::FsSetfd { .. } => RetKind::CInt,
        Syscall::FsGetfl { .. } => RetKind::CInt,
        Syscall::FsSetfl { .. } => RetKind::CInt,
    }
}

/// The return-register value for a call's outcome: a value converted to the call's C type, or
/// the negated error number, sign-extended to a register.
pub open spec fn encode_spec(kind: RetKind, outcome: EResult<i64>) -> usize {
    match outcome {
        Ok(v) => match kind {
            RetKind::CInt => (v as i32) as usize,
            RetKind::ISize => (v as isize) as usize,
            RetKind::I64 => (v as i64) as usize,
        },
        Err(e) => match kind {
            RetKind::CInt => (-errno_code(e)) as i32 as usize,
            RetKind::ISize => (-errno_code(e)) as isize as usize,
            RetKind::I64 => (-errno_code(e)) as i64 as usize,
        },
    }
}

/// Each system call takes its fields from the argument registers in order: the first field
/// from the first register, the second from the second, and so on; a read, write or directory
/// listing takes the descriptor, then the buffer's address, then its length. Numbers past the
/// last call decode to nothing.
pub proof fn lemma_decode_registers(args: [usize; 6])
    ensures
        decode_spec(0, args) == Some(Syscall::ThreadYieldTime),
        decode_spec(1, args) matches Some(Syscall::ThreadSleep { delay: f_delay })
            && f_delay == args[0] as u64,
        decode_spec(2, args) matches Some(Syscall::ThreadCreate { entry: f_entry, arg: f_arg, priority: f_priority })
            && f_entry == args[0] && f_arg == args[1] && f_priority == args[2] as u32,
        decode_spec(3, args) matches Some(Syscall::ThreadDetach { thread_id: f_thread_id })
            && f_thread_id == args[0] as i32,
        decode_spec(4, args) matches Some(Syscall::ThreadJoin { thread_id: f_thread_id })
            && f_thread_id == args[0] as i32,
        decode_spec(5, args) matches Some(Syscall::ThreadExit { code: f_code })
            && f_code == args[0] as i32,
        decode_spec(6, args) matches Some(Syscall::ProcExit { code: f_code })
            && f_code == args[0] as i32,
        decode_spec(7, args) == Some(Syscall::ProcFork),
        decode_spec(8, args) matches Some(Syscall::ProcExec { path: f_path, argv: f_argv, envp: f_envp })
            && f_path == args[0] && f_argv == args[1] && f_envp == args[2],
        decode_spec(9, args) matches Some(Syscall::ProcSigaction { signum: f_signum, newhandler: f_newhandler, oldhandler: f_oldhandler })
            && f_signum == args[0] as i32 && f_newhandler == args[1] && f_oldhandler == args[2],
        decode_spec(10, args) == Some(Syscall::ProcSigret),
        decode_spec(11, args) matches Some(Syscall::ProcWaitpid { pid: f_pid, wstatus: f_wstatus, options: f_options })
            && f_pid == args[0] as i32 && f_wstatus == args[1] && f_options == args[2] as i32,
        decode_spec(12, args) matches Some(Syscall::FsOpen { at: f_at, path: f_path, oflags: f_oflags })
            && f_at == args[0] as i32 && f_path == args[1] && f_oflags == args[2] as i32,
        decode_spec(13, args) matches Some(Syscall::FsClose { fd: f_fd })
            && f_fd == args[0] as i32,
        decode_spec(14, args) matches Some(Syscall::FsRead { fd: f_fd, buf: f_buf, len: f_len })
            && f_fd == args[0] as i32 && f_buf == args[1] && f_len == args[2],
        decode_spec(15, args) matches Some(Syscall::FsWrite { fd: f_fd, buf: f_buf, len: f_len })
            && f_fd == args[0] as i32 && f_buf == args[1] && f_len == args[2],
        decode_spec(16, args) matches Some(Syscall::FsGetdents { fd: f_fd, buf: f_buf, len: f_len })
            && f_fd == args[0] as i32 && f_buf == args[1] && f_len == args[2],
        decode_spec(17, args) matches Some(Syscall::FsRename { old_at: f_old_at, old_path: f_old_path, new_at: f_new_at, new_path: f_new_path, flags: f_flags })
            && f_old_at == args[0] as i32 && f_old_path == args[1] && f_new_at == args[2] as i32 && f_new_path == args[3] && f_flags == args[4] as u32,
        decode_spec(18, args) matches Some(Syscall::FsStat { fd: f_fd, path: f_path, follow_link: f_follow_link, stat_out: f_stat_out })
            && f_fd == args[0] as i32 && f_path == args[1] && f_follow_link == (args[2] != 0) && f_stat_out == args[3],
        decode_spec(19, args) matches Some(Syscall::FsMkdir { at: f_at, path: f_path })
            && f_at == args[0] as i32 && f_path == args[1],
        decode_spec(20, args) matches Some(Syscall::FsRmdir { at: f_at, path: f_path })
            && f_at == args[0] as i32 && f_path == args[1],
        decode_spec(21, args) matches Some(Syscall::FsLink { old_at: f_old_at, old_path: f_old_path, new_at: f_new_at, new_path: f_new_path, flags: f_flags })
            && f_old_at == args[0] as i32 && f_old_path == args[1] && f_new_at == args[2] as i32 && f_new_path == args[3] && f_flags == args[4] as u32,
        decode_spec(22, args) matches Some(Syscall::FsUnlink { at: f_at, path: f_path })
            && f_at == args[0] as i32 && f_path == args[1],
        decode_spec(23, args) matches Some(Syscall::FsMkfifo { at: f_at, path: f_path })
            && f_at == args[0] as i32 && f_path == args[1],
        decode_spec(24, args) matches Some(Syscall::FsPipe { fds: f_fds, flags: f_flags })
            && f_fds == args[0] && f_flags == args[1] as i32,
        decode_spec(25, args) matches Some(Syscall::FsSeek { fd: f_fd, offset: f_offset, whence: f_whence })
            && f_fd == args[0] as i32 && f_offset == args[1] as i64 && f_whence == args[2] as i32,
        decode_spec(26, args) matches Some(Syscall::MemMap { address: f_address, size: f_size, prot: f_prot, flags: f_flags, fd: f_fd, offset: f_offset })
            && f_address == args[0] && f_size == args[1] && f_prot == args[2] as i32 && f_flags == args[3] as i32 && f_fd == args[4] as i32 && f_offset == args[5] as i64,
        decode_spec(27, args) matches Some(Syscall::MemUnmap { address: f_address, size: f_size })
            && f_address == args[0] && f_size == args[1],
        decode_spec(28, args) matches Some(Syscall::MemProtect { address: f_address, size: f_size, prot: f_prot })
            && f_address == args[0] && f_size == args[1] && f_prot == args[2] as i32,
        decode_spec(29, args) matches Some(Syscall::SysLog { message: f_message, len: f_len })
            && f_message == args[0] && f_len == args[1],
        decode_spec(30, args) matches Some(Syscall::TimeGettime { clkid: f_clkid, time: f_time })
            && f_clkid == args[0] as i32 && f_time == args[1],
        decode_spec(31, args) matches Some(Syscall::ThreadKill { thread_id: f_thread_id, signum: f_signum })
            && f_thread_id == args[0] as i32 && f_signum == args[1] as i32,
        decode_spec(32, args) matches Some(Syscall::ProcKill { pid: f_pid, signum: f_signum })
            && f_pid == args[0] as i32 && f_signum == args[1] as i32,
        decode_spec(33, args) matches Some(Syscall::ProcGetid { getid_type: f_getid_type })
            && f_getid_type == args[0] as i32,
        decode_spec(34, args) matches Some(Syscall::FsSymlink { link_target: f_link_target, at: f_at, path: f_path })
            && f_link_target == args[0] && f_at == args[1] as i32 && f_path == args[2],
        decode_spec(35, args) matches Some(Syscall::FsDup { fd: f_fd, flags: f_flags, newfd: f_newfd })
            && f_fd == args[0] as i32 && f_flags == args[1] as i32 && f_newfd == args[2] as i32,
        decode_spec(36, args) matches Some(Syscall::ThreadSigmask { how: f_how, set: f_set, oldset: f_oldset })
            && f_how == args[0] as i32 && f_set == args[1] && f_oldset == args[2],
        decode_spec(37, args) matches Some(Syscall::SysUname { name: f_name })
            && f_name == args[0],
        decode_spec(38, args) matches Some(Syscall::FsIsatty { fd: f_fd })
            && f_fd == args[0] as i32,
        decode_spec(39, args) matches Some(Syscall::FsTcgetattr { fd: f_fd, attr: f_attr })
            && f_fd == args[0] as i32 && f_attr == args[1],
        decode_spec(40, args) matches Some(Syscall::FsTcsetattr { fd: f_fd, attr: f_attr })
            && f_fd == args[0] as i32 && f_attr == args[1],
        decode_spec(41, args) matches Some(Syscall::FsGetcwd { buf: f_buf, len: f_len })
            && f_buf == args[0] && f_len == args[1],
        decode_spec(42, args) matches Some(Syscall::FsChdir { at: f_at, path: f_path })
            && f_at == args[0] as i32 && f_path == args[1],
        decode_spec(43, args) matches Some(Syscall::FsGetfd { fd: f_fd })
            && f_fd == args[0] as i32,
        decode_spec(44, args) matches Some(Syscall::FsSetfd { fd: f_fd, flags: f_flags })
            && f_fd == args[0] as i32 && f_flags == args[1] as i32,
        decode_spec(45, args) matches Some(Syscall::FsGetfl { fd: f_fd })
            && f_fd == args[0] as i32,
        decode_spec(46, args) matches Some(Syscall::FsSetfl { fd: f_fd, flags: f_flags })
            && f_fd == args[0] as i32 && f_flags == args[1] as i32,
        forall|n: usize| n > 46 ==> decode_spec(n, args) is None,
{
}

/// Reading, writing and listing a directory (14, 15 and 16) and mapping memory (26) return a
/// `ssize_t`; seeking (25) and asking for an ID (33) return an `int64_t`; every other call
/// returns an `int`.
pub proof fn lemma_return_kinds(sysno: usize, args: [usize; 6])
    ensures
        decode_spec(sysno, args) matches Some(c) ==> ret_kind(c) == if sysno == 14 || sysno == 15 || sysno == 16
            || sysno == 26 {
            RetKind::ISize
        } else if sysno == 25 || sysno == 33 {
            RetKind::I64
        } else {
            RetKind::CInt
        },
{
}

/// The return register holds an error as its number negated, and a value that the call's C
/// type can hold as that value, each sign-extended to the whole register.
pub proof fn lemma_encode_values(kind: RetKind, e: Errno, v: i64)
    ensures
        encode_spec(kind, Err(e)) as isize == -errno_code(e),
        i32::MIN <= v <= i32::MAX ==> encode_spec(kind, Ok(v)) as isize == v,
        kind != RetKind::CInt && isize::MIN <= v <= isize::MAX ==> encode_spec(kind, Ok(v)) as isize == v,
{
    let c: i32 = errno_code(e);
    assert(0 < c <= 110);
    let n: i32 = (-c) as i32;
    assert(-110 <= n < 0 ==> (n as usize) as isize == n && ((n as isize) as usize) as isize == n
        && ((n as i64) as usize) as isize == n) by (bit_vector);
    assert(((v as i32) as usize) as isize == v <== i32::MIN <= v <= i32::MAX) by (bit_vector);
    if isize::MIN <= v <= isize::MAX {
        assert((v as isize) as i64 == v);
        assert((v as isize) as i64 == v ==> ((v as isize) as usize) as isize == v && (v as usize) as isize == v)
            by (bit_vector);
    }
}

/// Decode system call number `sysno` with the argument registers `args`.
pub fn decode(sysno: usize, args: [usize; 6]) -> (r: Option<Syscall>)
    ensures
        r == decode_spec(sysno, args),
{
    match sysno {
        0 => Some(Syscall::ThreadYieldTime),
        1 => Some(Syscall::ThreadSleep { delay: args[0] as u64 }),
        2 => Some(Syscall::ThreadCreate { entry: args[0], arg: args[1], priority: args[2] as u32 }),
        3 => Some(Syscall::ThreadDetach { thread_id: args[0] as i32 }),
        4 => Some(Syscall::ThreadJoin { thread_id: args[0] as i32 }),
        5 => Some(Syscall::ThreadExit { code: args[0] as i32 }),
        6 => Some(Syscall::ProcExit { code: args[0] as i32 }),
        7 => Some(Syscall::ProcFork),
        8 => Some(Syscall::ProcExec { path: args[0], argv: args[1], envp: args[2] }),
        9 => Some(Syscall::ProcSigaction { signum: args[0] as i32, newhandler: args[1], oldhandler: args[2] }),
        10 => Some(Syscall::ProcSigret),
        11 => Some(Syscall::ProcWaitpid { pid: args[0] as i32, wstatus: args[1], options: args[2] as i32 }),
        12 => Some(Syscall::FsOpen { at: args[0] as i32, path: args[1], oflags: args[2] as i32 }),
        13 => Some(Syscall::FsClose { fd: args[0] as i32 }),
        14 => Some(Syscall::FsRead { fd: args[0] as i32, buf: args[1], len: args[2] }),
        15 => Some(Syscall::FsWrite { fd: args[0] as i32, buf: args[1], len: args[2] }),
        16 => Some(Syscall::FsGetdents { fd: args[0] as i32, buf: args[1], len: args[2] }),
        17 => Some(Syscall::FsRename { old_at: args[0] as i32, old_path: args[1], new_at: args[2] as i32, new_path: args[3], flags: args[4] as u32 }),
        18 => Some(Syscall::FsStat { fd: args[0] as i32, path: args[1], follow_link: args[2] != 0, stat_out: args[3] }),
        19 => Some(Syscall::FsMkdir { at: args[0] as i32, path: args[1] }),
        20 => Some(Syscall::FsRmdir { at: args[0] as i32, path: args[1] }),
        21 => Some(Syscall::FsLink { old_at: args[0] as i32, old_path: args[1], new_at: args[2] as i32, new_path: args[3], flags: args[4] as u32 }),
        22 => Some(Syscall::FsUnlink { at: args[0] as i32, path: args[1] }),
        23 => Some(Syscall::FsMkfifo { at: args[0] as i32, path: args[1] }),
        24 => Some(Syscall::FsPipe { fds: args[0], flags: args[1] as i32 }),
        25 => Some(Syscall::FsSeek { fd: args[0] as i32, offset: args[1] as i64, whence: args[2] as i32 }),
        26 => Some(Syscall::MemMap { address: args[0], size: args[1], prot: args[2] as i32, flags: args[3] as i32, fd: args[4] as i32, offset: args[5] as i64 }),
        27 => Some(Syscall::MemUnmap { address: args[0], size: args[1] }),
        28 => Some(Syscall::MemProtect { address: args[0], size: args[1], prot: args[2] as i32 }),
        29 => Some(Syscall::SysLog { message: args[0], len: args[1] }),
        30 => Some(Syscall::TimeGettime { clkid: args[0] as i32, time: args[1] }),
        31 => Some(Syscall::ThreadKill { thread_id: args[0] as i32, signum: args[1] as i32 }),
        32 => Some(Syscall::ProcKill { pid: args[0] as i32, signum: args[1] as i32 }),
        33 => Some(Syscall::ProcGetid { getid_type: args[0] as i32 }),
        34 => Some(Syscall::FsSymlink { link_target: args[0], at: args[1] as i32, path: args[2] }),
        35 => Some(Syscall::FsDup { fd: args[0] as i32, flags: args[1] as i32, newfd: args[2] as i32 }),
        36 => Some(Syscall::ThreadSigmask { how: args[0] as i32, set: args[1], oldset: args[2] }),
        37 => Some(Syscall::SysUname { name: args[0] }),
        38 => Some(Syscall::FsIsatty { fd: args[0] as i32 }),
        39 => Some(Syscall::FsTcgetattr { fd: args[0] as i32, attr: args[1] }),
        40 => Some(Syscall::FsTcsetattr { fd: args[0] as i32, attr: args[1] }),
        41 => Some(Syscall::FsGetcwd { buf: args[0], len: args[1] }),
        42 => Some(Syscall::FsChdir { at: args[0] as i32, path: args[1] }),
        43 => Some(Syscall::FsGetfd { fd: args[0] as i32 }),
        44 => Some(Syscall::FsSetfd { fd: args[0] as i32, flags: args[1] as i32 }),
        45 => Some(Syscall::FsGetfl { fd: args[0] as i32 }),
        46 => Some(Syscall::FsSetfl { fd: args[0] as i32, flags: args[1] as i32 }),
        _ => None,
    }
}

/// The C type in which a system call returns its result.
pub fn kind_of(call: &Syscall) -> (r: RetKind)
    ensures
        r == ret_kind(*call),
{
    match call {
        Syscall::ThreadYieldTime => RetKind::CInt,
        Syscall::ThreadSleep { .. } => RetKind::CInt,
        Syscall::ThreadCreate { .. } => RetKind::CInt,
        Syscall::ThreadDetach { .. } => RetKind::CInt,
        Syscall::ThreadJoin { .. } => RetKind::CInt,
        Syscall::ThreadExit { .. } => RetKind::CInt,
        Syscall::ProcExit { .. } => RetKind::CInt,
        Syscall::ProcFork => RetKind::CInt,
        Syscall::ProcExec { .. } => RetKind::CInt,
        Syscall::ProcSigaction { .. } => RetKind::CInt,
        Syscall::ProcSigret => RetKind::CInt,
        Syscall::ProcWaitpid { .. } => RetKind::CInt,
        Syscall::FsOpen { .. } => RetKind::CInt,
        Syscall::FsClose { .. } => RetKind::CInt,
        Syscall::FsRead { .. } => RetKind::ISize,
        Syscall::FsWrite { .. } => RetKind::ISize,
        Syscall::FsGetdents { .. } => RetKind::ISize,
        Syscall::FsRename { .. } => RetKind::CInt,
        Syscall::FsStat { .. } => RetKind::CInt,
        Syscall::FsMkdir { .. } => RetKind::CInt,
        Syscall::FsRmdir { .. } => RetKind::CInt,
        Syscall::FsLink { .. } => RetKind::CInt,
        Syscall::FsUnlink { .. } => RetKind::CInt,
        Syscall::FsMkfifo { .. } => RetKind::CInt,
        Syscall::FsPipe { .. } => RetKind::CInt,
        Syscall::FsSeek { .. } => RetKind::I64,
        Syscall::MemMap { .. } => RetKind::ISize,
        Syscall::MemUnmap { .. } => RetKind::CInt,
        Syscall::MemProtect { .. } => RetKind::CInt,
        Syscall::SysLog { .. } => RetKind::CInt,
        Syscall::TimeGettime { .. } => RetKind::CInt,
        Syscall::ThreadKill { .. } => RetKind::CInt,
        Syscall::ProcKill { .. } => RetKind::CInt,
        Syscall::ProcGetid { .. } => RetKind::I64,
        Syscall::FsSymlink { .. } => RetKind::CInt,
        Syscall::FsDup { .. } => RetKind::CInt,
        Syscall::ThreadSigmask { .. } => RetKind::CInt,
        Syscall::SysUname { .. } => RetKind::CInt,
        Syscall::FsIsatty { .. } => RetKind::CInt,
        Syscall::FsTcgetattr { .. } => RetKind::CInt,
        Syscall::FsTcsetattr { .. } => RetKind::CInt,
        Syscall::FsGetcwd { .. } => RetKind::CInt,
        Syscall::FsChdir { .. } => RetKind::CInt,
        Syscall::FsGetfd { .. } => RetKind::CInt,
        Syscall::FsSetfd { .. } => RetKind::CInt,
        Syscall::FsGetfl { .. } => RetKind::CInt,
        Syscall::FsSetfl { .. } => RetKind::CInt,
    }
}

/// The return-register value for an outcome of a call returning `kind`.
pub fn encode(kind: RetKind, outcome: EResult<i64>) -> (r: usize)
    ensures
        r == encode_spec(kind, outcome),
{
    match outcome {
        Ok(v) => match kind {
            RetKind::CInt => (v as i32) as usize,
            RetKind::ISize => (v as isize) as usize,
            RetKind::I64 => v as usize,
        },
        Err(e) => {
            let c = e.code();
            match kind {
                RetKind::CInt => (-c) as usize,
                RetKind::ISize => (-c) as isize as usize,
                RetKind::I64 => (-c) as i64 as usize,
            }
        },
    }
}

/// Dispatch system call `sysno`: the call to perform, or, for an unknown number, the
/// return-register value that reports `ENOSYS`.
pub fn dispatch(sysno: usize, args: [usize; 6]) -> (r: Result<Syscall, usize>)
    ensures
        match decode_spec(sysno, args) {
            Some(c) => r == Ok::<Syscall, usize>(c),
            None => r == Err::<Syscall, usize>(encode_spec(RetKind::CInt, Err(Errno::ENOSYS))),
        },
{
    match decode(sysno, args) {
        Some(c) => Ok(c),
        None => Err(encode(RetKind::CInt, Err(Errno::ENOSYS))),
    }
}

/// The return-register value after `call` finished with `outcome`; `None` for the return from
/// a signal handler, which restores all registers itself.
pub fn retval(call: &Syscall, outcome: EResult<i64>) -> (r: Option<usize>)
    ensures
        *call == Syscall::ProcSigret ==> r is None,
        *call != Syscall::ProcSigret ==> r == Some(encode_spec(ret_kind(*call), outcome)),
{
    match call {
        Syscall::ProcSigret => None,
        _ => Some(encode(kind_of(call), outcome)),
    }
}

/// ID of calling process.
pub const GETID_PID: i32 = 0;
/// ID of calling process' parent.
pub const GETID_PPID: i32 = 1;
/// ID of calling thread.
pub const GETID_TID: i32 = 2;
/// User ID of calling process.
pub const GETID_UID: i32 = 3;
/// Effective user ID of calling process.
pub const GETID_EUID: i32 = 4;
/// Group ID of calling process.
pub const GETID_GID: i32 = 3;
/// Effective group ID of calling process.
pub const GETID_EGID: i32 = 4;

/// The outcome of the calls that this kernel answers without any further work: the thread
/// calls other than yielding, sleeping and the signal mask are not implemented.
pub fn local_outcome(call: &Syscall) -> (r: Option<EResult<i64>>)
    ensures
        r == match *call {
            Syscall::ThreadCreate { .. } | Syscall::ThreadDetach { .. } | Syscall::ThreadJoin { .. }
            | Syscall::ThreadExit { .. } | Syscall::ThreadKill { .. } => Some(Err::<i64, Errno>(Errno::ENOSYS)),
            _ => None,
        },
{
    match call {
        Syscall::ThreadCreate { .. } | Syscall::ThreadDetach { .. } | Syscall::ThreadJoin { .. }
        | Syscall::ThreadExit { .. } | Syscall::ThreadKill { .. } => Some(Err(Errno::ENOSYS)),
        _ => None,
    }
}

/// The wait status of a process that exited with `code`.
pub fn exit_status(code: i32) -> (r: i32)
    ensures
        r == (code & 255) * 256,
{
    assert((code & 255) << 8 == (code & 255) * 256 && 0 <= code & 255 <= 255) by (bit_vector);
    (code & 255) << 8
}

/// The delay of a sleep in microseconds: the requested one, or the longest there is.
pub fn sleep_delay(delay: u64) -> (r: i64)
    ensures
        delay <= i64::MAX ==> r == delay,
        delay > i64::MAX ==> r == i64::MAX,
{
    if delay <= i64::MAX as u64 {
        delay as i64
    } else {
        i64::MAX
    }
}

/// Whether a signal's handler may be changed: not for numbers out of range, nor for the
/// signals that cannot be caught.
pub fn check_sigaction(signum: i32) -> (r: EResult<()>)
    ensures
        (signum < 0 || signum >= NSIG || signum == signal_number(Signal::SIGSTOP)
            || signum == signal_number(Signal::SIGKILL)) ==> r == Err::<(), Errno>(Errno::EINVAL),
        !(signum < 0 || signum >= NSIG || signum == signal_number(Signal::SIGSTOP)
            || signum == signal_number(Signal::SIGKILL)) ==> r is Ok,
{
    if signum < 0 || signum >= NSIG || signum == Signal::SIGSTOP.number() || signum == Signal::SIGKILL.number() {
        return Err(Errno::EINVAL);
    }
    Ok(())
}

/// Whether a signal may be sent to process `pid`, before the process is looked up.
pub fn check_kill(pid: i32, signum: i32) -> (r: EResult<()>)
    ensures
        signum > 1023 ==> r == Err::<(), Errno>(Errno::EPERM),
        signum <= 1023 && pid < 1 ==> r == Err::<(), Errno>(Errno::ESRCH),
        signum <= 1023 && pid >= 1 ==> r is Ok,
{
    if signum > 1023 {
        return Err(Errno::EPERM);
    }
    if pid < 1 {
        return Err(Errno::ESRCH);
    }
    Ok(())
}

/// The identifier that `getid` returns for `getid_type`, given the calling process and its
/// parent (if it still has one); the other identifiers are all zero.
pub fn getid_value(getid_type: i32, pid: i32, ppid: Option<i32>) -> (r: i64)
    ensures
        getid_type == GETID_PID ==> r == pid,
        getid_type == GETID_PPID ==> r == match ppid { Some(p) => p as i64, None => 0 },
        getid_type != GETID_PID && getid_type != GETID_PPID ==> r == 0,
{
    if getid_type == GETID_PID {
        pid as i64
    } else if getid_type == GETID_PPID {
        match ppid {
            Some(p) => p as i64,
            None => 0,
        }
    } else {
        0
    }
}

/// Which processes `waitpid` waits for.
#[derive(Clone, Copy, Debug, PartialEq, Eq, Structural)]
pub enum WaitTarget {
    /// The child with this process ID.
    Child(i32),
    /// Any child.
    AnyChild,
}

/// Which processes `waitpid(pid, ..)` waits for; process groups are not supported.
pub fn wait_target(pid: i32) -> (r: EResult<WaitTarget>)
    ensures
        pid < -1 ==> r == Err::<WaitTarget, Errno>(Errno::ENOSYS),
        pid > 0 ==> r == Ok::<WaitTarget, Errno>(WaitTarget::Child(pid)),
        -1 <= pid <= 0 ==> r == Ok::<WaitTarget, Errno>(WaitTarget::AnyChild),
{
    if pid < -1 {
        Err(Errno::ENOSYS)
    } else if pid > 0 {
        Ok(WaitTarget::Child(pid))
    } else {
        Ok(WaitTarget::AnyChild)
    }
}

/// The new signal mask after `sigprocmask(how, set, ..)`, bit `n` standing for signal number `n`;
/// with no set the mask stays.
pub fn sigmask_update(how: i32, mask: u128, set: Option<u128>) -> (r: EResult<u128>)
    ensures
        set is None ==> r == Ok::<u128, Errno>(mask),
        set matches Some(s) ==> r == if how == SIG_BLOCK {
            Ok::<u128, Errno>(mask | s)
        } else if how == SIG_UNBLOCK {
            Ok::<u128, Errno>(mask & !s)
        } else if how == SIG_SETMASK {
            Ok::<u128, Errno>(s)
        } else {
            Err::<u128, Errno>(Errno::EINVAL)
        },
{
    match set {
        None => Ok(mask),
        Some(s) => {
            if how == SIG_BLOCK {
                Ok(mask | s)
            } else if how == SIG_UNBLOCK {
                Ok(mask & !s)
            } else if how == SIG_SETMASK {
                Ok(s)
            } else {
                Err(Errno::EINVAL)
            }
        },
    }
}

/// Whether `mmap` maps anonymous memory (`Ok(true)`), or a file at an offset that is a
/// non-negative multiple of the page size (`Ok(false)`).
pub fn check_mmap(flags: i32, offset: i64) -> (r: EResult<bool>)
    ensures
        (flags as u32) & ANONYMOUS != 0 ==> r == Ok::<bool, Errno>(true),
        (flags as u32) & ANONYMOUS == 0 && (offset < 0 || offset % (PAGE_SIZE as i64) != 0) ==> r == Err::<bool, Errno>(Errno::EINVAL),
        (flags as u32) & ANONYMOUS == 0 && !(offset < 0 || offset % (PAGE_SIZE as i64) != 0) ==> r == Ok::<bool, Errno>(false),
{
    if (flags as u32) & ANONYMOUS != 0 {
        Ok(true)
    } else if offset < 0 || offset % (PAGE_SIZE as i64) != 0 {
        Err(Errno::EINVAL)
    } else {
        Ok(false)
    }
}

/// The system identification: this operating system on `machine`, with `release` in the
/// release field and the build `version` in the version field.
pub fn uname_info(machine: &str, release: &str, version: &str) -> (r: utsname)
    requires
        machine.spec_bytes().len() <= 65,
        release.spec_bytes().len() <= 65,
        version.spec_bytes().len() <= 65,
    ensures
        r.sysname.0@ == SYSNAME@ + Seq::new((65 - SYSNAME@.len()) as nat, |i: int| 0u8),
        r.machine.0@ == machine.spec_bytes() + Seq::new((65 - machine.spec_bytes().len()) as nat, |i: int| 0u8),
        r.release.0@ == release.spec_bytes() + Seq::new((65 - release.spec_bytes().len()) as nat, |i: int| 0u8),
        r.nodename.0@ == Seq::new(65, |i: int| 0u8),
        r.version.0@ == version.spec_bytes() + Seq::new((65 - version.spec_bytes().len()) as nat, |i: int| 0u8),
        r.domainname.0@ == Seq::new(65, |i: int| 0u8),
{
    let mut u = utsname::default();
    let ghost zero = Seq::new(65, |i: int| 0u8);
    let name = SYSNAME;
    u.sysname.assign_bytes(&name);
    u.machine.assign(machine);
    u.release.assign(release);
    u.version.assign(version);
    proof {
        assert(zero.skip(SYSNAME@.len() as int) =~= Seq::new((65 - SYSNAME@.len()) as nat, |i: int| 0u8));
        assert(zero.skip(machine.spec_bytes().len() as int) =~= Seq::new((65 - machine.spec_bytes().len()) as nat, |i: int| 0u8));
        assert(zero.skip(release.spec_bytes().len() as int) =~= Seq::new((65 - release.spec_bytes().len()) as nat, |i: int| 0u8));
        assert(zero.skip(version.spec_bytes().len() as int) =~= Seq::new((65 - version.spec_bytes().len()) as nat, |i: int| 0u8));
    }
    u
}

/// Name of this operating system ("BadgerOS").
pub const SYSNAME: [u8; 8] = [0x42, 0x61, 0x64, 0x67, 0x65, 0x72, 0x4f, 0x53];

/// The words of a shebang line, split at single spaces (so that two spaces in a row make an
/// empty word).
pub open spec fn split_words(s: Seq<u8>) -> Seq<Seq<u8>>
    decreases s.len(),
{
    if s.len() == 0 {
        seq![Seq::<u8>::empty()]
    } else {
        let r = split_words(s.drop_last());
        if s.last() == 0x20 {
            r.push(Seq::empty())
        } else {
            r.update(r.len() - 1, r.last().push(s.last()))
        }
    }
}

proof fn lemma_split_words_nonempty(s: Seq<u8>)
    ensures
        split_words(s).len() >= 1,
    decreases s.len(),
{
    if s.len() > 0 {
        lemma_split_words_nonempty(s.drop_last());
    }
}

/// Words put back together with one space between each two.
pub open spec fn joined(ws: Seq<Seq<u8>>) -> Seq<u8>
    decreases ws.len(),
{
    if ws.len() == 0 {
        Seq::empty()
    } else if ws.len() == 1 {
        ws[0]
    } else {
        joined(ws.drop_last()) + seq![0x20u8] + ws.last()
    }
}

/// Splitting a line at its spaces gives words without spaces that, put back together with one
/// space between each two, give the line again.
pub proof fn lemma_split_words_inverse(s: Seq<u8>)
    ensures
        joined(split_words(s)) == s,
        forall|k: int| 0 <= k < split_words(s).len() ==> !(#[trigger] split_words(s)[k]).contains(0x20u8),
    decreases s.len(),
{
    lemma_split_words_nonempty(s);
    if s.len() > 0 {
        let t = s.drop_last();
        let c = s.last();
        lemma_split_words_inverse(t);
        lemma_split_words_nonempty(t);
        let r = split_words(t);
        assert(s =~= t.push(c));
        if c == 0x20 {
            let q = r.push(Seq::<u8>::empty());
            assert(q.drop_last() =~= r);
            assert(joined(q) =~= joined(r) + seq![0x20u8] + Seq::<u8>::empty());
            assert forall|k: int| 0 <= k < q.len() implies !(#[trigger] q[k]).contains(0x20u8) by {
                if k < r.len() {
                    assert(q[k] == r[k]);
                }
            }
        } else {
            let q = r.update(r.len() - 1, r.last().push(c));
            if r.len() == 1 {
                assert(joined(q) == q[0]);
                assert(joined(r) == r[0]);
                assert(q[0] =~= t.push(c));
            } else {
                assert(q.drop_last() =~= r.drop_last());
                assert(joined(q) == joined(q.drop_last()) + seq![0x20u8] + q.last());
                assert(joined(r) == joined(r.drop_last()) + seq![0x20u8] + r.last());
                assert(joined(q) =~= joined(r).push(c));
            }
            assert forall|k: int| 0 <= k < q.len() implies !(#[trigger] q[k]).contains(0x20u8) by {
                if k < r.len() - 1 {
                    assert(q[k] == r[k]);
                } else {
                    assert(!r[k].contains(0x20u8));
                    if q[k].contains(0x20u8) {
                        let j = choose|j: int| 0 <= j < q[k].len() && q[k][j] == 0x20u8;
                        if j < r[k].len() {
                            assert(r[k][j] == 0x20u8);
                        }
                    }
                }
            }
        }
    }
}

/// Index of the first newline of `s`, if it has one.
pub open spec fn first_newline(s: Seq<u8>) -> Option<int> {
    if exists|i: int| 0 <= i < s.len() && s[i] == 0x0a {
        Some(choose|i: int| 0 <= i < s.len() && s[i] == 0x0a && forall|j: int| 0 <= j < i ==> s[j] != 0x0a)
    } else {
        None
    }
}

/// The words of the first line of a script whose first `file_len` bytes were read into `buf`
/// (the rest of it being zero): `ENOEXEC` when the buffer holds no newline or the line holds a
/// NUL byte.
pub fn shebang_words(buf: &[u8], file_len: usize) -> (r: EResult<Vec<Vec<u8>>>)
    ensures
        ({
            let nl = first_newline(buf@);
            match nl {
                None => r == Err::<Vec<Vec<u8>>, Errno>(Errno::ENOEXEC),
                Some(n) => {
                    let line = buf@.take(if file_len < n { file_len as int } else { n });
                    if line.contains(0u8) {
                        r == Err::<Vec<Vec<u8>>, Errno>(Errno::ENOEXEC)
                    } else {
                        r is Ok && r->Ok_0@.len() == split_words(line).len()
                            && forall|k: int| 0 <= k < r->Ok_0@.len() ==> (#[trigger] r->Ok_0@[k])@ == split_words(line)[k]
                    }
                },
            }
        }),
{
    let mut n: usize = 0;
    while n < buf.len() && buf[n] != 0x0a
        invariant
            n <= buf@.len(),
            forall|j: int| 0 <= j < n ==> buf@[j] != 0x0a,
        decreases buf@.len() - n,
    {
        n = n + 1;
    }
    if n == buf.len() {
        return Err(Errno::ENOEXEC);
    }
    proof {
        let c = choose|i: int| 0 <= i < buf@.len() && buf@[i] == 0x0a && forall|j: int| 0 <= j < i ==> buf@[j] != 0x0a;
        assert(buf@[n as int] == 0x0a);
        if c < n {
        } else if c > n {
            assert(buf@[n as int] != 0x0a);
        }
        assert(c == n);
    }
    let len = if file_len < n { file_len } else { n };
    let ghost line = buf@.take(len as int);
    let mut words: Vec<Vec<u8>> = Vec::new();
    let mut cur: Vec<u8> = Vec::new();
    let mut i: usize = 0;
    while i < len
        invariant
            len <= n < buf@.len(),
            first_newline(buf@) == Some(n as int),
            len == (if file_len < n { file_len } else { n }),
            line == buf@.take(len as int),
            i <= len,
            forall|j: int| 0 <= j < i ==> line[j] != 0,
            words@.len() + 1 == split_words(line.take(i as int)).len(),
            forall|k: int| 0 <= k < words@.len() ==> (#[trigger] words@[k])@ == split_words(line.take(i as int))[k],
            cur@ == split_words(line.take(i as int)).last(),
        decreases len - i,
    {
        let b = buf[i];
        if b == 0 {
            proof {
                assert(line[i as int] == 0);
                assert(line.contains(0u8));
            }
            return Err(Errno::ENOEXEC);
        }
        proof {
            assert(line.take(i + 1).drop_last() =~= line.take(i as int));
            lemma_split_words_nonempty(line.take(i as int));
        }
        if b == 0x20 {
            words.push(cur);
            cur = Vec::new();
        } else {
            cur.push(b);
        }
        i = i + 1;
    }
    words.push(cur);
    proof {
        assert(line.take(len as int) =~= line);
        lemma_split_words_nonempty(line);
        if line.contains(0u8) {
            let k = choose|k: int| 0 <= k < line.len() && line[k] == 0u8;
            assert(line[k] != 0);
        }
    }
    Ok(words)
}

} // verus!
