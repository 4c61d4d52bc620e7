use badgeros::errno::Errno;
use badgeros::uapi::signal::{Signal, NSIG};
use badgeros::uapi::uname::{utsname, NameField};
use badgeros::uapi::wait::{
    w_continued, w_exited, w_if_continued, w_if_exited, w_if_signalled, w_if_stopped, w_signalled,
    w_stopped,
};

#[test]
fn wait_status_encodings() {
    assert_eq!(w_exited(3), 0x300);
    assert_eq!(w_exited(0x1ff), 0xff00);
    assert_eq!(w_signalled(9), 0x90040);
    assert_eq!(w_stopped(19), 0x130020);
    assert_eq!(w_continued(18), 0x120020);
}

#[test]
fn wait_status_decodings() {
    let e = w_exited(42);
    assert!(w_if_exited(e));
    assert!(!w_if_signalled(e));
    assert!(!w_if_stopped(e));
    let s = w_signalled(9);
    assert!(w_if_signalled(s));
    assert!(!w_if_exited(s));
    let t = w_stopped(19);
    assert!(w_if_stopped(t));
    assert!(!w_if_signalled(t));
    assert!(!w_if_exited(t));
    assert!(w_if_continued(0x10));
    assert!(!w_if_continued(w_continued(18)));
    assert_eq!((e >> 8) & 0xff, 42);
}

#[test]
fn signal_numbers() {
    assert_eq!(Signal::SIGHUP.number(), 1);
    assert_eq!(Signal::SIGKILL.number(), 9);
    assert_eq!(Signal::SIGSTOP.number(), 19);
    assert_eq!(Signal::SIGRTMAX.number(), 64);
    assert!(Signal::SIGRTMAX.number() < NSIG);
}

#[test]
fn name_fields() {
    let mut f = NameField::default();
    assert!(f.0.iter().all(|&b| b == 0));
    f.assign("abc");
    assert_eq!(&f.0[..4], b"abc\0");
    f.assign_bytes(b"x");
    assert_eq!(&f.0[..4], b"xbc\0");
    let u = utsname::default();
    assert!(u.domainname.0.iter().all(|&b| b == 0));
}

#[test]
fn errno_codes() {
    assert_eq!(Errno::EPERM.code(), 1);
    assert_eq!(Errno::ENOMEM.code(), 12);
    assert_eq!(Errno::ENOSYS.code(), 38);
    assert_eq!(Errno::ETIMEDOUT.code(), 110);
}
