use badgeros::errno::Errno;
use badgeros::process::signal::{
    die_status, disposition, get_async_sig, handler_mask, mask_after_entry, sigset_test, take_deliverable,
    Disposition, SigAction, SigInfo, Sigtab, SA_NODEFER, SIG_DFL, SIG_IGN,
};

fn sig(signo: i32) -> SigInfo {
    SigInfo { signo, code: 0, errno: 0, pid: 7, addr: 0 }
}

fn bit(n: u32) -> u128 {
    1u128 << n
}

#[test]
fn sigset_bits_are_signal_numbers() {
    assert!(sigset_test(bit(10), 10));
    assert!(!sigset_test(bit(10), 9));
    assert!(sigset_test(bit(64), 64));
    assert!(!sigset_test(u128::MAX, -1));
    assert!(!sigset_test(u128::MAX, 128));
}

#[test]
fn sigtab_starts_with_defaults() {
    let t = Sigtab::new();
    assert_eq!(t.table.len(), 65);
    let a = t.get(15);
    assert_eq!(a, SigAction { handler: SIG_DFL, flags: 0, restorer: 0, mask: 0 });
}

#[test]
fn sigtab_set_action_returns_previous() {
    let mut t = Sigtab::new();
    let h = SigAction { handler: 0x1000, flags: SA_NODEFER, restorer: 0x2000, mask: bit(3) };
    assert_eq!(t.set_action(10, Some(h)), Ok(SigAction { handler: SIG_DFL, flags: 0, restorer: 0, mask: 0 }));
    assert_eq!(t.get(10), h);
    assert_eq!(t.set_action(10, None), Ok(h));
    assert_eq!(t.get(10).handler, SIG_DFL);
}

#[test]
fn sigtab_refuses_kill_stop_and_out_of_range() {
    let mut t = Sigtab::new();
    let h = SigAction { handler: 0x1000, flags: 0, restorer: 0, mask: 0 };
    assert_eq!(t.set_action(9, Some(h)), Err(Errno::EINVAL));
    assert_eq!(t.set_action(19, Some(h)), Err(Errno::EINVAL));
    assert_eq!(t.set_action(-1, Some(h)), Err(Errno::EINVAL));
    assert_eq!(t.set_action(65, Some(h)), Err(Errno::EINVAL));
    assert_eq!(t.get(9).handler, SIG_DFL);
}

#[test]
fn take_skips_blocked_signals() {
    let mut q = vec![sig(10), sig(12), sig(2)];
    let mask = bit(10);
    assert_eq!(take_deliverable(&mut q, mask, false), Some(sig(12)));
    assert_eq!(q, vec![sig(10), sig(2)]);
}

#[test]
fn poll_leaves_queue() {
    let mut q = vec![sig(10), sig(12)];
    assert_eq!(take_deliverable(&mut q, 0, true), Some(sig(10)));
    assert_eq!(q.len(), 2);
    assert_eq!(take_deliverable(&mut q, 0, false), Some(sig(10)));
    assert_eq!(q, vec![sig(12)]);
}

#[test]
fn kill_and_stop_pass_any_mask() {
    let mut q = vec![sig(10), sig(9)];
    assert_eq!(take_deliverable(&mut q, u128::MAX, false), Some(sig(9)));
    let mut q = vec![sig(19)];
    assert_eq!(take_deliverable(&mut q, u128::MAX, false), Some(sig(19)));
    let mut q = vec![sig(10)];
    assert_eq!(take_deliverable(&mut q, u128::MAX, false), None);
    assert_eq!(q, vec![sig(10)]);
}

#[test]
fn thread_queue_before_process_queue() {
    let mut tq = vec![sig(12)];
    let mut pq = vec![sig(2)];
    assert_eq!(get_async_sig(&mut tq, &mut pq, 0, false), Some(sig(12)));
    assert_eq!(get_async_sig(&mut tq, &mut pq, 0, false), Some(sig(2)));
    assert_eq!(get_async_sig(&mut tq, &mut pq, 0, false), None);
    assert!(tq.is_empty() && pq.is_empty());
}

#[test]
fn sigkill_always_kills() {
    assert_eq!(disposition(&sig(9), SIG_DFL, 7), Disposition::Die);
    assert_eq!(disposition(&sig(9), SIG_IGN, 7), Disposition::Die);
    assert_eq!(disposition(&sig(9), 0x1000, 7), Disposition::Die);
}

#[test]
fn default_actions() {
    assert_eq!(disposition(&sig(11), SIG_DFL, 1), Disposition::Die);
    assert_eq!(disposition(&sig(15), SIG_DFL, 1), Disposition::Die);
    assert_eq!(disposition(&sig(21), SIG_DFL, 1), Disposition::Stop);
    assert_eq!(disposition(&sig(18), SIG_DFL, 1), Disposition::Continue);
    assert_eq!(disposition(&sig(17), SIG_DFL, 1), Disposition::Ignore);
    assert_eq!(disposition(&sig(28), SIG_DFL, 1), Disposition::Ignore);
}

#[test]
fn ignored_traps_of_own_process_kill() {
    assert_eq!(disposition(&sig(11), SIG_IGN, 7), Disposition::Die);
    assert_eq!(disposition(&sig(11), SIG_IGN, 8), Disposition::Ignore);
    assert_eq!(disposition(&sig(15), SIG_IGN, 7), Disposition::Ignore);
    assert_eq!(disposition(&sig(15), 0x4000, 7), Disposition::Handle);
}

#[test]
fn die_status_values() {
    assert_eq!(die_status(9), 0x9_0040);
    assert_eq!(die_status(11), 0xb_0040);
    assert!(badgeros::uapi::wait::w_if_signalled(die_status(9)));
    assert!(!badgeros::uapi::wait::w_if_exited(die_status(9)));
}

#[test]
fn handler_masks() {
    let a = SigAction { handler: 0x1000, flags: 0, restorer: 0, mask: bit(3) };
    assert_eq!(mask_after_entry(bit(1), &a, 10), bit(1) | bit(3) | bit(10));
    let b = SigAction { handler: 0x1000, flags: SA_NODEFER, restorer: 0, mask: bit(3) };
    assert_eq!(mask_after_entry(bit(1), &b, 10), bit(1) | bit(3));
}

#[test]
fn handler_mask_refuses_bad_code() {
    let a = SigAction { handler: 0x1000, flags: 0, restorer: 0, mask: bit(3) };
    assert_eq!(handler_mask(bit(1), &a, 10), Some(bit(1) | bit(3) | bit(10)));
    assert_eq!(handler_mask(bit(1), &a, -1), None);
    assert_eq!(handler_mask(bit(1), &a, 65), None);
    let b = SigAction { handler: 0x1000, flags: SA_NODEFER, restorer: 0, mask: bit(3) };
    assert_eq!(handler_mask(bit(1), &b, -1), Some(bit(1) | bit(3)));
}
