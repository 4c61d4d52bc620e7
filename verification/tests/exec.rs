use badgeros::errno::Errno;
use badgeros::process::elf::AuxvEntry;
use badgeros::process::exec::{entry_stack, exec_format, Cmdline, ExecFormat};
use badgeros::process::files::{FDTable, FileDesc};

#[test]
fn exec_formats() {
    assert_eq!(exec_format(0, true, *b"\x7fELF", 4), Ok(ExecFormat::Elf));
    assert_eq!(exec_format(0, true, *b"\x7fELF", 3), Err(Errno::ENOEXEC));
    assert_eq!(exec_format(1, true, *b"#!/b", 4), Ok(ExecFormat::Shebang));
    assert_eq!(exec_format(1, true, *b"#!\0\0", 2), Ok(ExecFormat::Shebang));
    assert_eq!(exec_format(0, true, *b"MZ\0\0", 4), Err(Errno::ENOEXEC));
    assert_eq!(exec_format(0, false, *b"\x7fELF", 4), Err(Errno::ENOEXEC));
    assert_eq!(exec_format(8, true, *b"\x7fELF", 4), Ok(ExecFormat::Elf));
    assert_eq!(exec_format(9, true, *b"\x7fELF", 4), Err(Errno::EMLINK));
}

#[test]
fn shebang_words_go_first() {
    let mut c = Cmdline {
        binary: b"/bin/script".to_vec(),
        argv: vec![b"/bin/script".to_vec(), b"arg".to_vec()],
        envp: vec![b"A=1".to_vec()],
        auxv: Vec::new(),
    };
    c.prepend_args(vec![b"#!/bin/sh".to_vec(), b"-x".to_vec()]);
    assert_eq!(
        c.argv,
        vec![b"#!/bin/sh".to_vec(), b"-x".to_vec(), b"/bin/script".to_vec(), b"arg".to_vec()]
    );
    assert_eq!(c.envp, vec![b"A=1".to_vec()]);
    assert_eq!(c.binary, b"/bin/script".to_vec());
}

#[test]
fn entry_stack_layout() {
    let argv = vec![b"ab".to_vec(), b"c".to_vec()];
    let envp = vec![b"X=1".to_vec()];
    let auxv = vec![AuxvEntry { type_: 9, value: 0x1000 }];
    let top = 0x10000usize;
    let st = entry_stack(top, &argv, &envp, &auxv).unwrap();
    assert_eq!(st.strings.len(), 3);
    assert_eq!(st.strings[0].addr, top - 3);
    assert_eq!(st.strings[0].bytes, b"ab\0".to_vec());
    assert_eq!(st.strings[1].addr, top - 5);
    assert_eq!(st.strings[1].bytes, b"c\0".to_vec());
    assert_eq!(st.strings[2].addr, top - 9);
    assert_eq!(st.strings[2].bytes, b"X=1\0".to_vec());
    assert_eq!(
        st.words,
        vec![2, top - 3, top - 5, 0, top - 9, 0, 9, 0x1000, 0]
    );
    let w = std::mem::size_of::<usize>();
    let low = top - 9 - w * 9;
    assert_eq!(st.sp, low - low % 16);
    assert_eq!(st.sp % 16, 0);
}

#[test]
fn entry_stack_that_does_not_fit() {
    let argv = vec![vec![b'a'; 100]];
    assert!(entry_stack(64, &argv, &Vec::new(), &Vec::new()).is_none());
    assert!(entry_stack(16, &Vec::new(), &Vec::new(), &Vec::new()).is_none());
    assert!(entry_stack(4096, &argv, &Vec::new(), &Vec::new()).is_some());
}

#[test]
fn stdio_fill_keeps_open_descriptors() {
    let mut t: FDTable<u32> = FDTable::new();
    assert!(!t.has_stdio());
    t.insert_file(FileDesc { flags: 0, file: 7 }).unwrap();
    t.fill_stdio(FileDesc { flags: 0, file: 1 }, FileDesc { flags: 0, file: 1 }, FileDesc { flags: 0, file: 1 });
    assert!(t.has_stdio());
    assert_eq!(t.get_file(0), Ok(&7));
    assert_eq!(t.get_file(1), Ok(&1));
    assert_eq!(t.get_file(2), Ok(&1));
    assert_eq!(t.insert_file(FileDesc { flags: 0, file: 3 }), Ok(3));
}
