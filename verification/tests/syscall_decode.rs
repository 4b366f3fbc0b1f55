use lib::cap::Cap;
use lib::ipc::{EndpointTable, IpcError, RecvOutcome, SendOutcome, WaitOutcome};
use lib::mm;
use lib::sched::{Dispatch, Scheduler, State, SwitchFrom};
use lib::syscall::{
    dispatch, Syscall, A0, A1, A2, A3, A4, A5, A7, ERR_BAD_CAP, ERR_BUSY, NO_GRANT, SYS_CAP_DELETE, SYS_CAP_DUPE,
    SYS_NOTIFY_SIGNAL, SYS_NOTIFY_WAIT, SYS_RECV, SYS_SEND, WRITE_MAX,
};
use lib::trap::TrapFrame;

fn call(nr: u64, a0: u64, a1: u64) -> TrapFrame {
    let mut f = TrapFrame::default();
    f.regs[A7] = nr;
    f.regs[A0] = a0;
    f.regs[A1] = a1;
    f
}

/// two tasks, the first running, both holding endpoint 0 in slot 0 and
/// the first holding notification 0 in slot 2.
fn kernel() -> (Scheduler, EndpointTable) {
    let (mut mem, _kpt) = mm::init(0x8020_0000);
    let mut s = Scheduler::new();
    s.spawn(&mut mem, &vec![0u8; 64], 0x8020_1000);
    s.spawn(&mut mem, &vec![0u8; 64], 0x8020_1000);
    let mut t = EndpointTable::new();
    let ep = t.alloc_endpoint().unwrap();
    let n = t.alloc_notification().unwrap();
    s.install_cap(1, 0, Cap::Endpoint(ep));
    s.install_cap(2, 0, Cap::Endpoint(ep));
    s.install_cap(1, 2, Cap::Notification(n));
    s.start();
    (s, t)
}

fn run(f: &mut TrapFrame) -> Syscall {
    let (mut s, mut t) = kernel();
    dispatch(f, &mut s, &mut t)
}

#[test]
fn exit_carries_the_code_and_leaves_a0() {
    let mut f = call(0, 7, 0);
    assert!(matches!(run(&mut f), Syscall::Exit(7)));
    assert_eq!(f.regs[A0], 7);
}

#[test]
fn hi_returns_zero() {
    let mut f = call(1, 99, 0);
    assert!(matches!(run(&mut f), Syscall::Hi));
    assert_eq!(f.regs[A0], 0);
}

#[test]
fn putc_takes_the_low_byte() {
    let mut f = call(2, 0x141, 0);
    assert!(matches!(run(&mut f), Syscall::Putc(0x41)));
    assert_eq!(f.regs[A0], 0);
}

#[test]
fn yield_returns_zero() {
    let mut f = call(3, 5, 0);
    assert!(matches!(run(&mut f), Syscall::Yield));
    assert_eq!(f.regs[A0], 0);
}

#[test]
fn write_returns_its_length() {
    let mut f = call(4, 0x4000_1000, 30);
    assert!(matches!(run(&mut f), Syscall::Write { ptr: 0x4000_1000, len: 30 }));
    assert_eq!(f.regs[A0], 30);
}

#[test]
fn write_is_clamped() {
    let mut f = call(4, 0x4000_1000, 1 << 40);
    assert!(matches!(run(&mut f), Syscall::Write { ptr: 0x4000_1000, len: WRITE_MAX }));
    assert_eq!(f.regs[A0], 4096);
}

#[test]
fn unknown_syscall_returns_all_ones() {
    let mut f = call(11, 0xab, 0);
    assert!(matches!(run(&mut f), Syscall::Unknown { nr: 11, a0: 0xab }));
    assert_eq!(f.regs[A0], u64::MAX);
    assert_eq!(f.regs[A7], 11);
}

#[test]
fn send_to_a_parked_receiver_returns_zero() {
    let (mut s, mut t) = kernel();
    // pid 1 receives on cap 0 and parks; pid 2 runs.
    let mut f1 = call(SYS_RECV, 0, NO_GRANT);
    assert!(matches!(
        dispatch(&mut f1, &mut s, &mut t),
        Syscall::Recv { result: Ok(RecvOutcome::Parked), switch: Some(Dispatch::Switch { from: SwitchFrom::Task(0), to: 1 }) }
    ));
    // pid 2 sends label 0xAA00 and three words on its cap 0.
    let mut f2 = call(SYS_SEND, 0, 0xAA00);
    f2.regs[A2] = 1;
    f2.regs[A3] = 2;
    f2.regs[A4] = 3;
    f2.regs[A5] = NO_GRANT;
    assert!(matches!(
        dispatch(&mut f2, &mut s, &mut t),
        Syscall::Send { result: Ok(SendOutcome::Delivered), switch: None, .. }
    ));
    assert_eq!(f2.regs[A0], 0);
    let r = &s.kstack_frames[0];
    assert_eq!([r.regs[A0], r.regs[A1], r.regs[A2], r.regs[A3]], [0xAA00, 1, 2, 3]);
    assert!(s.procs[0].state == State::Ready);
}

#[test]
fn send_parks_and_recv_takes_the_message_and_grant() {
    let (mut s, mut t) = kernel();
    // pid 1 dupes cap 0 to slot 1 and grants it with a send.
    let mut f = call(SYS_CAP_DUPE, 0, 1);
    assert!(matches!(dispatch(&mut f, &mut s, &mut t), Syscall::CapDupe(Ok(()))));
    assert_eq!(f.regs[A0], 0);
    let mut f1 = call(SYS_SEND, 0, 0xAA00);
    f1.regs[A5] = 1;
    assert!(matches!(
        dispatch(&mut f1, &mut s, &mut t),
        Syscall::Send { result: Ok(SendOutcome::Parked), switch: Some(_), .. }
    ));
    // a parked sender's a0 is left for the receiver to settle.
    assert_eq!(f1.regs[A0], 0);
    // pid 2 receives with grant slot 7.
    let mut f2 = call(SYS_RECV, 0, 7);
    assert!(matches!(
        dispatch(&mut f2, &mut s, &mut t),
        Syscall::Recv { result: Ok(RecvOutcome::Got(_, Some(Cap::Endpoint(0)))), switch: None }
    ));
    assert_eq!(f2.regs[A0], 0xAA00);
    assert!(s.procs[1].caps.get(7) == Some(&Cap::Endpoint(0)));
    assert_eq!(s.kstack_frames[0].regs[A0], 0);
    // pid 2 deletes the granted cap.
    let mut f3 = call(SYS_CAP_DELETE, 7, 0);
    assert!(matches!(dispatch(&mut f3, &mut s, &mut t), Syscall::CapDelete(Ok(()))));
    assert!(s.procs[1].caps.get(7).is_none());
}

#[test]
fn bad_caps_and_slots_are_refused() {
    let (mut s, mut t) = kernel();
    // slot 5 is empty; slot 99 does not exist; slot 2 is a notification.
    for (nr, a0) in [(SYS_SEND, 5), (SYS_SEND, 99), (SYS_SEND, 2), (SYS_RECV, 5), (SYS_NOTIFY_SIGNAL, 0), (SYS_NOTIFY_WAIT, 1)] {
        let mut f = call(nr, a0, 0);
        let _ = dispatch(&mut f, &mut s, &mut t);
        assert_eq!(f.regs[A0], ERR_BAD_CAP, "call {} on {}", nr, a0);
    }
    let mut f = call(SYS_CAP_DUPE, 5, 6);
    assert!(matches!(dispatch(&mut f, &mut s, &mut t), Syscall::CapDupe(Err(_))));
    assert_eq!(f.regs[A0], ERR_BAD_CAP);
    let mut f = call(SYS_CAP_DUPE, 0, 16);
    assert!(matches!(dispatch(&mut f, &mut s, &mut t), Syscall::CapDupe(Err(_))));
    let mut f = call(SYS_CAP_DELETE, 16, 0);
    assert!(matches!(dispatch(&mut f, &mut s, &mut t), Syscall::CapDelete(Err(_))));
    assert_eq!(f.regs[A0], ERR_BAD_CAP);
    assert!(s.procs[0].state == State::Running);
}

#[test]
fn notification_signal_and_wait() {
    let (mut s, mut t) = kernel();
    let mut f = call(SYS_NOTIFY_SIGNAL, 2, 0b1011);
    assert!(matches!(dispatch(&mut f, &mut s, &mut t), Syscall::Signal(Ok(()))));
    assert_eq!(f.regs[A0], 0);
    let mut f = call(SYS_NOTIFY_WAIT, 2, 0);
    assert!(matches!(dispatch(&mut f, &mut s, &mut t), Syscall::Wait { result: Ok(WaitOutcome::Got(0b1011)), switch: None }));
    assert_eq!(f.regs[A0], 0b1011);
}

#[test]
fn a_second_notification_waiter_is_busy() {
    let (mut s, mut t) = kernel();
    // pid 1 waits and parks; pid 2 gets the notification too and waits.
    let mut f = call(SYS_NOTIFY_WAIT, 2, 0);
    assert!(matches!(dispatch(&mut f, &mut s, &mut t), Syscall::Wait { result: Ok(WaitOutcome::Parked), .. }));
    s.install_cap(2, 2, Cap::Notification(0));
    let mut f = call(SYS_NOTIFY_WAIT, 2, 0);
    assert!(matches!(dispatch(&mut f, &mut s, &mut t), Syscall::Wait { result: Err(IpcError::Busy), switch: None }));
    assert_eq!(f.regs[A0], ERR_BUSY);
}
