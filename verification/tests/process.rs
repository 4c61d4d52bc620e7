use badgeros::errno::Errno;
use badgeros::mem::prot;
use badgeros::process::dents::{DentBuffer, NodeType, DT_CHR, DT_DIR, DT_REG};
use badgeros::process::elf::{
    interp_path, load_plan, plan_segment, plan_segment_direct, AuxvEntry, ElfHeader, LoadStep,
    ProgHeader, SegmentPlan, AT_ENTRY, AT_PHDR, AT_PHENT, AT_PHNUM, PF_R, PF_W, PF_X, PT_INTERP,
    PT_LOAD, PT_PHDR,
};
use badgeros::process::files::{FDTable, FileDesc, AT_FDCWD, FILE_MAX, O_CLOEXEC};
use badgeros::process::syscall::{
    check_kill, check_mmap, check_sigaction, decode, dispatch, encode, exit_status, getid_value,
    local_outcome, retval, shebang_words, sigmask_update, sleep_delay, uname_info, wait_target,
    RetKind, Syscall, WaitTarget, GETID_PID, GETID_PPID, GETID_TID,
};
use badgeros::uapi::signal::{SIG_BLOCK, SIG_SETMASK, SIG_UNBLOCK};

fn desc(flags: u32, file: u32) -> FileDesc<u32> {
    FileDesc { flags, file }
}

#[test]
fn fd_insert_takes_lowest_free_number() {
    let mut t: FDTable<u32> = FDTable::new();
    assert_eq!(t.insert_file(desc(0, 10)), Ok(0));
    assert_eq!(t.insert_file(desc(0, 11)), Ok(1));
    assert_eq!(t.insert_file(desc(0, 12)), Ok(2));
    assert_eq!(t.remove_file(1), Ok(()));
    assert_eq!(t.insert_file(desc(0, 13)), Ok(1));
    assert_eq!(t.get_file(1), Ok(&13));
    assert_eq!(t.get_file(2), Ok(&12));
}

#[test]
fn fd_get_and_remove_errors() {
    let mut t: FDTable<u32> = FDTable::new();
    assert_eq!(t.get_file(0), Err(Errno::EBADF));
    assert_eq!(t.remove_file(3), Err(Errno::EBADF));
    assert_eq!(t.get_atfile(AT_FDCWD), Ok(None));
    assert_eq!(t.get_atfile(5), Err(Errno::EBADF));
    t.insert_file(desc(0, 7)).unwrap();
    assert_eq!(t.get_atfile(0), Ok(Some(&7)));
    assert_eq!(t.remove_file(0), Ok(()));
    assert_eq!(t.get_file(0), Err(Errno::EBADF));
}

#[test]
fn fd_table_full() {
    let mut t: FDTable<u32> = FDTable::new();
    for i in 0..FILE_MAX {
        assert_eq!(t.insert_file(desc(0, i as u32)), Ok(i));
    }
    assert_eq!(t.insert_file(desc(0, 0)), Err(Errno::EMFILE));
    assert_eq!(t.insert_dual_file(desc(0, 0), desc(0, 1)), Err(Errno::EMFILE));
}

#[test]
fn fd_insert_dual_takes_two_lowest() {
    let mut t: FDTable<u32> = FDTable::new();
    t.insert_file(desc(0, 1)).unwrap();
    t.insert_file(desc(0, 2)).unwrap();
    t.insert_file(desc(0, 3)).unwrap();
    t.remove_file(1).unwrap();
    assert_eq!(t.insert_dual_file(desc(0, 20), desc(0, 30)), Ok((1, 3)));
    assert_eq!(t.get_file(1), Ok(&20));
    assert_eq!(t.get_file(3), Ok(&30));
}

#[test]
fn fd_replace() {
    let mut t: FDTable<u32> = FDTable::new();
    assert_eq!(t.replace_file(FILE_MAX, desc(0, 1)), Err(Errno::EMFILE));
    assert_eq!(t.replace_file(-1, desc(0, 1)), Err(Errno::EMFILE));
    assert_eq!(t.replace_file(4, desc(0, 1)), Err(Errno::EBADF));
    assert!(t.get_file(4).is_err());
    assert!(t.inner.is_empty());
    for i in 0..5 {
        assert_eq!(t.insert_file(desc(0, 100 + i)), Ok(i as i32));
    }
    assert_eq!(t.replace_file(4, desc(0, 2)), Ok(()));
    assert_eq!(t.get_file(4), Ok(&2));
    assert_eq!(t.get_file(3), Ok(&103));
}

#[test]
fn fd_close_cloexec_and_clear() {
    let mut t: FDTable<u32> = FDTable::new();
    t.insert_file(desc(O_CLOEXEC, 1)).unwrap();
    t.insert_file(desc(0, 2)).unwrap();
    t.insert_file(desc(O_CLOEXEC | 1, 3)).unwrap();
    t.close_cloexec();
    assert_eq!(t.get_file(0), Err(Errno::EBADF));
    assert_eq!(t.get_file(1), Ok(&2));
    assert_eq!(t.get_file(2), Err(Errno::EBADF));
    t.clear();
    assert_eq!(t.get_file(1), Err(Errno::EBADF));
    assert_eq!(t.insert_file(desc(0, 9)), Ok(0));
}

#[test]
fn syscall_decode_known_and_unknown() {
    let args = [3usize, 0x1000, 16, 0, 0, 0];
    assert_eq!(decode(15, args), Some(Syscall::FsWrite { fd: 3, buf: 0x1000, len: 16 }));
    assert_eq!(decode(7, args), Some(Syscall::ProcFork));
    assert_eq!(decode(47, args), None);
    let neg = [usize::MAX, 0, 0, 0, 0, 0];
    assert_eq!(decode(13, neg), Some(Syscall::FsClose { fd: -1 }));
    let stat = [1usize, 2, 5, 4, 0, 0];
    assert_eq!(
        decode(18, stat),
        Some(Syscall::FsStat { fd: 1, path: 2, follow_link: true, stat_out: 4 })
    );
}

#[test]
fn syscall_dispatch_reports_enosys() {
    let args = [0usize; 6];
    assert_eq!(dispatch(1000, args), Err((-38i64) as usize));
    assert_eq!(dispatch(0, args), Ok(Syscall::ThreadYieldTime));
}

#[test]
fn syscall_return_values() {
    assert_eq!(encode(RetKind::CInt, Ok(5)), 5);
    assert_eq!(encode(RetKind::CInt, Err(Errno::EBADF)), (-9i64) as usize);
    assert_eq!(encode(RetKind::CInt, Ok(0x1_0000_0001)), 1);
    assert_eq!(encode(RetKind::ISize, Ok(-1)), usize::MAX);
    assert_eq!(encode(RetKind::I64, Err(Errno::EINVAL)), (-22i64) as usize);
    let read = Syscall::FsRead { fd: 0, buf: 0, len: 4 };
    assert_eq!(retval(&read, Ok(4)), Some(4));
    assert_eq!(retval(&Syscall::ProcSigret, Ok(0)), None);
    assert_eq!(retval(&Syscall::ProcFork, Err(Errno::ENOMEM)), Some((-12i64) as usize));
}

#[test]
fn syscall_local_outcomes() {
    assert_eq!(local_outcome(&Syscall::ThreadJoin { thread_id: 1 }), Some(Err(Errno::ENOSYS)));
    assert_eq!(local_outcome(&Syscall::ProcFork), None);
}

#[test]
fn syscall_small_rules() {
    assert_eq!(exit_status(3), 0x300);
    assert_eq!(exit_status(0x1ff), 0xff00);
    assert_eq!(sleep_delay(1000), 1000);
    assert_eq!(sleep_delay(u64::MAX), i64::MAX);
    assert_eq!(check_sigaction(9), Err(Errno::EINVAL));
    assert_eq!(check_sigaction(19), Err(Errno::EINVAL));
    assert_eq!(check_sigaction(65), Err(Errno::EINVAL));
    assert_eq!(check_sigaction(-1), Err(Errno::EINVAL));
    assert_eq!(check_sigaction(2), Ok(()));
    assert_eq!(check_kill(1, 2000), Err(Errno::EPERM));
    assert_eq!(check_kill(0, 9), Err(Errno::ESRCH));
    assert_eq!(check_kill(4, 9), Ok(()));
    assert_eq!(getid_value(GETID_PID, 7, Some(1)), 7);
    assert_eq!(getid_value(GETID_PPID, 7, Some(1)), 1);
    assert_eq!(getid_value(GETID_PPID, 7, None), 0);
    assert_eq!(getid_value(GETID_TID, 7, Some(1)), 0);
    assert_eq!(wait_target(5), Ok(WaitTarget::Child(5)));
    assert_eq!(wait_target(-1), Ok(WaitTarget::AnyChild));
    assert_eq!(wait_target(0), Ok(WaitTarget::AnyChild));
    assert_eq!(wait_target(-2), Err(Errno::ENOSYS));
}

#[test]
fn sigmask_updates() {
    assert_eq!(sigmask_update(SIG_BLOCK, 0b0101, Some(0b0010)), Ok(0b0111));
    assert_eq!(sigmask_update(SIG_UNBLOCK, 0b0111, Some(0b0010)), Ok(0b0101));
    assert_eq!(sigmask_update(SIG_SETMASK, 0b0111, Some(0b1000)), Ok(0b1000));
    assert_eq!(sigmask_update(7, 0b0111, Some(0b1000)), Err(Errno::EINVAL));
    assert_eq!(sigmask_update(7, 0b0111, None), Ok(0b0111));
}

#[test]
fn mmap_checks() {
    assert_eq!(check_mmap(0x20, 3), Ok(true));
    assert_eq!(check_mmap(0x02, 4096), Ok(false));
    assert_eq!(check_mmap(0x02, 100), Err(Errno::EINVAL));
    assert_eq!(check_mmap(0x02, -4096), Err(Errno::EINVAL));
}

#[test]
fn uname_fields() {
    let u = uname_info("riscv64", "0.1.0", "0.2");
    assert_eq!(&u.sysname.0[..9], b"BadgerOS\0");
    assert_eq!(&u.machine.0[..8], b"riscv64\0");
    assert_eq!(&u.release.0[..6], b"0.1.0\0");
    assert_eq!(&u.version.0[..4], b"0.2\0");
    assert!(u.nodename.0.iter().all(|&b| b == 0));
    assert!(u.domainname.0.iter().all(|&b| b == 0));
}

#[test]
fn shebang_lines() {
    let mut buf = vec![0u8; 64];
    let text = b"#!/bin/sh -x  y\nrest";
    buf[..text.len()].copy_from_slice(text);
    let words = shebang_words(&buf, text.len()).unwrap();
    let expect: Vec<Vec<u8>> = vec![
        b"#!/bin/sh".to_vec(),
        b"-x".to_vec(),
        Vec::new(),
        b"y".to_vec(),
    ];
    assert_eq!(words, expect);
    let short = shebang_words(&buf, 5).unwrap();
    assert_eq!(short, vec![b"#!/bi".to_vec()]);
    assert_eq!(shebang_words(b"#!/bin/sh", 9), Err(Errno::ENOEXEC));
    assert_eq!(shebang_words(b"#!/b\0n\n", 7), Err(Errno::ENOEXEC));
}

#[test]
fn dents_records() {
    let mut d = DentBuffer::new(vec![0xaau8; 48]);
    assert!(d.push(5, 1, NodeType::Directory, b"."));
    assert!(d.push(6, 2, NodeType::BlockDev, b"dev"));
    assert!(!d.push(7, 3, NodeType::Regular, b"a_long_name"));
    let (buf, n) = d.finish();
    assert_eq!(n, 48);
    assert_eq!(&buf[0..8], &5u64.to_le_bytes());
    assert_eq!(&buf[8..16], &1u64.to_le_bytes());
    assert_eq!(&buf[16..18], &24u16.to_le_bytes());
    assert_eq!(buf[18], DT_DIR);
    assert_eq!(&buf[19..21], b".\0");
    assert_eq!(buf[21], 0xaa);
    assert_eq!(&buf[24..32], &6u64.to_le_bytes());
    assert_eq!(buf[42], DT_CHR);
    assert_eq!(&buf[43..47], b"dev\0");
    let mut e = DentBuffer::new(vec![0u8; 32]);
    assert!(e.push(1, 0, NodeType::Regular, b"file"));
    let (buf, n) = e.finish();
    assert_eq!(n, 24);
    assert_eq!(buf[18], DT_REG);
}

fn put(b: &mut [u8], at: usize, v: u64, n: usize) {
    b[at..at + n].copy_from_slice(&v.to_le_bytes()[..n]);
}

fn header_bytes(kind: u64, machine: u64, entry: u64, phnum: u64) -> Vec<u8> {
    let mut b = vec![0u8; 64];
    b[..4].copy_from_slice(&[0x7f, b'E', b'L', b'F']);
    b[4] = 2;
    b[5] = 1;
    b[6] = 1;
    put(&mut b, 16, kind, 2);
    put(&mut b, 18, machine, 2);
    put(&mut b, 20, 1, 4);
    put(&mut b, 24, entry, 8);
    put(&mut b, 32, 64, 8);
    put(&mut b, 52, 64, 2);
    put(&mut b, 54, 56, 2);
    put(&mut b, 56, phnum, 2);
    b
}

fn phdr(type_: u32, flags: u32, offset: u64, vaddr: u64, file_size: u64, mem_size: u64) -> ProgHeader {
    ProgHeader { type_, flags, offset, vaddr, paddr: vaddr, file_size, mem_size, align: 0x1000 }
}

#[test]
fn elf_header_parse() {
    let b = header_bytes(3, 243, 0x1000, 2);
    let h = ElfHeader::parse(&b).unwrap();
    assert_eq!(h.type_, 3);
    assert_eq!(h.machine, 243);
    assert_eq!(h.entry, 0x1000);
    assert_eq!(h.phoff, 64);
    assert_eq!(h.phentsize, 56);
    assert_eq!(h.phnum, 2);
    assert!(h.is_valid());
    let wrong = ElfHeader::parse(&header_bytes(3, 62, 0x1000, 2)).unwrap();
    assert!(!wrong.is_valid());
    assert!(matches!(ElfHeader::parse(&b[..63]), Err(Errno::ENOEXEC)));
}

#[test]
fn elf_program_header_parse() {
    let mut b = vec![0u8; 56];
    put(&mut b, 0, 1, 4);
    put(&mut b, 4, 5, 4);
    put(&mut b, 8, 0x2000, 8);
    put(&mut b, 16, 0x40_2000, 8);
    put(&mut b, 32, 0x123, 8);
    put(&mut b, 40, 0x456, 8);
    let p = ProgHeader::parse(&b).unwrap();
    assert_eq!(p.type_, PT_LOAD);
    assert_eq!(p.flags, 5);
    assert_eq!(p.offset, 0x2000);
    assert_eq!(p.vaddr, 0x40_2000);
    assert_eq!(p.file_size, 0x123);
    assert_eq!(p.mem_size, 0x456);
    assert!(matches!(ProgHeader::parse(&b[..55]), Err(Errno::ENOEXEC)));
}

#[test]
fn elf_segment_plans() {
    let p = phdr(PT_LOAD, PF_R | PF_W, 0x1234, 0x40_1234, 0x100, 0x2000);
    let s = plan_segment(&p, 0).unwrap();
    assert_eq!(
        s,
        SegmentPlan {
            start: 0x40_1000,
            vaddr: 0x40_1234,
            end_vaddr: 0x40_1334,
            file_end: 0x40_2000,
            mem_end: 0x40_4000,
            file_offset: 0x1000,
            prot: prot::READ | prot::WRITE,
        }
    );
    let bad = phdr(PT_LOAD, PF_R, 0x10, 0x40_1234, 0x100, 0x100);
    assert_eq!(plan_segment(&bad, 0), Err(Errno::ENOEXEC));
    let d = plan_segment_direct(&p, 0x1000).unwrap();
    assert_eq!(d.start, 0x40_2000);
    assert_eq!(d.end, 0x40_2234 + 0x2000);
    assert_eq!(d.file_offset, 0x1000);
    assert_eq!(d.prot, prot::READ | prot::WRITE);
    let x = phdr(PT_LOAD, PF_X, 0x1000, 0x40_1234, 0x100, 0x100);
    assert_eq!(plan_segment_direct(&x, 0), Err(Errno::ENOEXEC));
}

#[test]
fn elf_load_plan_for_pie() {
    let h = ElfHeader::parse(&header_bytes(3, 243, 0x1000, 2)).unwrap();
    let phdrs = vec![
        phdr(PT_LOAD, PF_R | PF_X, 0, 0, 0x1800, 0x2000),
        phdr(PT_PHDR, PF_R, 64, 0x40, 112, 112),
    ];
    let plan = load_plan(&h, &phdrs, false, 1 << 38).unwrap();
    assert_eq!(plan.load_offset, 0x10000);
    assert_eq!(plan.entry, 0x11000);
    assert_eq!(
        plan.steps,
        vec![
            LoadStep::Aux(AuxvEntry { type_: AT_ENTRY, value: 0x11000 }),
            LoadStep::Segment(SegmentPlan {
                start: 0x10000,
                vaddr: 0x10000,
                end_vaddr: 0x11800,
                file_end: 0x12000,
                mem_end: 0x12000,
                file_offset: 0,
                prot: prot::READ | prot::EXEC,
            }),
            LoadStep::Aux(AuxvEntry { type_: AT_PHENT, value: 56 }),
            LoadStep::Aux(AuxvEntry { type_: AT_PHNUM, value: 2 }),
            LoadStep::Aux(AuxvEntry { type_: AT_PHDR, value: 0x10040 }),
        ]
    );
    let interp = load_plan(&h, &phdrs, true, 1 << 38).unwrap();
    assert_eq!(interp.load_offset, 1 << 37);
}

#[test]
fn elf_load_plan_errors_and_interp() {
    let bad = ElfHeader::parse(&header_bytes(2, 62, 0x1000, 0)).unwrap();
    assert!(matches!(load_plan(&bad, &Vec::new(), false, 1 << 38), Err(Errno::ENOEXEC)));
    let h = ElfHeader::parse(&header_bytes(2, 243, 0x40_0000, 2)).unwrap();
    let phdrs = vec![
        phdr(PT_INTERP, PF_R, 0x200, 0x40_0200, 10, 10),
        phdr(PT_LOAD, PF_R, 0, 0x40_0000, 0x300, 0x300),
    ];
    let plan = load_plan(&h, &phdrs, false, 1 << 38).unwrap();
    assert_eq!(plan.load_offset, 0);
    assert_eq!(plan.steps[1], LoadStep::Interp { offset: 0x200, file_size: 10, mem_size: 10 });
    assert!(matches!(load_plan(&h, &phdrs, true, 1 << 38), Err(Errno::ENOEXEC)));
    let misaligned = vec![phdr(PT_LOAD, PF_R, 0x10, 0x40_0000, 0x300, 0x300)];
    assert!(matches!(load_plan(&h, &misaligned, false, 1 << 38), Err(Errno::ENOEXEC)));
}

#[test]
fn elf_interp_path() {
    assert_eq!(interp_path(b"/lib/ld.so\0junk", 15), b"/lib/ld.so".to_vec());
    assert_eq!(interp_path(b"/lib/ld.so", 4), b"/lib".to_vec());
    assert_eq!(interp_path(b"/ld", 8), b"/ld".to_vec());
}

#[test]
fn dup_takes_lowest_free_number() {
    let mut t: FDTable<u32> = FDTable::new();
    t.insert_file(desc(0, 10)).unwrap();
    t.insert_file(desc(0, 11)).unwrap();
    assert_eq!(t.dup(1, 0x0001_0007, -1, false), Ok(2));
    assert_eq!(t.get_file(2), Ok(&11));
    assert_eq!(t.inner.get(&2).unwrap().flags, 0x0001_0000);
}

#[test]
fn dup_of_closed_descriptor_fails() {
    let mut t: FDTable<u32> = FDTable::new();
    assert_eq!(t.dup(3, 0, -1, false), Err(Errno::EBADF));
    assert!(t.inner.is_empty());
}

#[test]
fn dup_fcntl_starts_at_newfd() {
    let mut t: FDTable<u32> = FDTable::new();
    t.insert_file(desc(0, 10)).unwrap();
    for i in 1..6 {
        t.insert_file(desc(0, 10 + i)).unwrap();
    }
    assert_eq!(t.dup(0, 0, 5, true), Ok(6));
    assert_eq!(t.get_file(6), Ok(&10));
    assert_eq!(t.dup(0, 0, -5, true), Err(Errno::EINVAL));
    assert_eq!(t.dup(0, 0, FILE_MAX, true), Err(Errno::EMFILE));
}

#[test]
fn dup2_replaces_open_descriptor() {
    let mut t: FDTable<u32> = FDTable::new();
    t.insert_file(desc(0, 10)).unwrap();
    t.insert_file(desc(0, 11)).unwrap();
    assert_eq!(t.dup(0, 0, 1, false), Ok(1));
    assert_eq!(t.get_file(1), Ok(&10));
    // Onto a closed number nothing is installed, and the call reports it was not open.
    assert_eq!(t.dup(0, 0, 9, false), Err(Errno::EBADF));
    assert!(t.get_file(9).is_err());
    // Descriptor 0 and numbers past the table are refused.
    assert_eq!(t.dup(1, 0, 0, false), Err(Errno::EINVAL));
    assert_eq!(t.dup(1, 0, FILE_MAX, false), Err(Errno::EINVAL));
}
