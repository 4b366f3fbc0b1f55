use lib::trap::{next_deadline, trap_dispatch, TrapAction, TrapFrame, TIMER_QUANTUM};

fn frame_at(sepc: u64) -> TrapFrame {
    let mut f = TrapFrame::default();
    f.sepc = sepc;
    f
}

#[test]
fn default_frame_is_zero() {
    let f = TrapFrame::default();
    assert!(f.regs.iter().all(|&r| r == 0));
    assert_eq!((f.sepc, f.sstatus, f._pad), (0, 0, 0));
}

#[test]
fn timer_interrupt_preempts() {
    let mut f = frame_at(0x4000_0010);
    assert_eq!(trap_dispatch(&mut f, (1u64 << 63) | 5), TrapAction::Preempt);
    assert_eq!(f.sepc, 0x4000_0010);
}

#[test]
fn external_interrupt_is_ignored() {
    let mut f = frame_at(0x10);
    assert_eq!(trap_dispatch(&mut f, (1u64 << 63) | 9), TrapAction::External);
}

#[test]
fn unknown_interrupt_reports_its_code() {
    let mut f = frame_at(0x10);
    assert_eq!(trap_dispatch(&mut f, (1u64 << 63) | 1), TrapAction::UnknownInterrupt(1));
    assert_eq!(f.sepc, 0x10);
}

#[test]
fn ecall_steps_over_the_instruction() {
    let mut f = frame_at(0x4000_0004);
    assert_eq!(trap_dispatch(&mut f, 8), TrapAction::Syscall);
    assert_eq!(f.sepc, 0x4000_0008);
}

#[test]
fn ecall_sepc_wraps() {
    let mut f = frame_at(u64::MAX - 1);
    assert_eq!(trap_dispatch(&mut f, 8), TrapAction::Syscall);
    assert_eq!(f.sepc, 2);
}

#[test]
fn page_faults_are_reported() {
    for code in [12u64, 13, 15] {
        let mut f = frame_at(0x20);
        assert_eq!(trap_dispatch(&mut f, code), TrapAction::PageFault(code));
        assert_eq!(f.sepc, 0x20);
    }
}

#[test]
fn other_exceptions_are_unhandled() {
    let mut f = frame_at(0x20);
    assert_eq!(trap_dispatch(&mut f, 2), TrapAction::Unhandled(2));
    // the interrupt bit is what makes 5 a timer; as an exception it is unhandled.
    assert_eq!(trap_dispatch(&mut f, 5), TrapAction::Unhandled(5));
}

#[test]
fn deadline_is_one_quantum_ahead() {
    assert_eq!(TIMER_QUANTUM, 100_000);
    assert_eq!(next_deadline(1_000), 101_000);
}
