//! Trap frames and trap classification.

use vstd::prelude::*;

verus! {

/// register save area. layout matches the trap entry stub exactly.
#[derive(Clone, Copy)]
pub struct TrapFrame {
    pub regs: [u64; 32],  // x0..x31. x0 unused but kept for indexed access.
    pub sepc: u64,  // off 256
    pub sstatus: u64,  // off 264
    pub _pad: u64,  // off 272 (keep frame 16-aligned at 280 bytes)
}

impl TrapFrame {
    /// A frame whose registers and csr copies are all zero.
    pub open spec fn is_zeroed(&self) -> bool {
        &&& forall|i: int| 0 <= i < 32 ==> self.regs@[i] == 0
        &&& self.sepc == 0
        &&& self.sstatus == 0
        &&& self._pad == 0
    }
}

impl Default for TrapFrame {
    fn default() -> (f: Self)
        ensures
            f.is_zeroed(),
    {
        TrapFrame { regs: [0u64; 32], sepc: 0, sstatus: 0, _pad: 0 }
    }
}

/// quantum in mtime ticks (qemu-virt clocks `time` at 10 MHz: 10 ms).
pub const TIMER_QUANTUM: u64 = 100_000;

pub const SCAUSE_INTERRUPT: u64 = 1 << 63;

pub const SCAUSE_CODE: u64 = !SCAUSE_INTERRUPT;

pub const EXC_ECALL_U: u64 = 8;  // user environment call

pub const EXC_PAGE_FAULT_R: u64 = 13;

pub const EXC_PAGE_FAULT_W: u64 = 15;

pub const EXC_PAGE_FAULT_X: u64 = 12;

pub const INT_TIMER_S: u64 = 5;

pub const INT_EXTERNAL_S: u64 = 9;

/// What the kernel does about a trap.
#[derive(Clone, Copy, PartialEq, Eq, Structural, Debug)]
pub enum TrapAction {
    /// timer interrupt: re-arm the timer one quantum ahead, then yield.
    Preempt,
    /// external interrupt: not routed yet, ignored.
    External,
    /// any other interrupt: logged, then execution resumes.
    UnknownInterrupt(u64),
    /// ecall from u-mode: sepc already points past the ecall; dispatch
    /// the system call.
    Syscall,
    /// page fault with this cause code: logged, then the machine stops.
    PageFault(u64),
    /// any other exception: logged, then the machine stops.
    Unhandled(u64),
}

/// `sepc` advanced past a 4-byte ecall, wrapping at 2^64.
pub open spec fn sepc_after_ecall(sepc: u64) -> u64 {
    if sepc + 4 > u64::MAX {
        (sepc + 4 - 0x1_0000_0000_0000_0000) as u64
    } else {
        (sepc + 4) as u64
    }
}

/// the cause code of `scause` (the interrupt bit cleared).
pub open spec fn cause_code(scause: u64) -> u64 {
    scause & SCAUSE_CODE
}

pub open spec fn is_interrupt(scause: u64) -> bool {
    scause & SCAUSE_INTERRUPT != 0
}

/// Decide what to do about the trap with cause `scause`; on a u-mode
/// ecall step `sepc` over the ecall instruction so sret returns to the
/// next user instruction.
pub fn trap_dispatch(frame: &mut TrapFrame, scause: u64) -> (a: TrapAction)
    ensures
        is_interrupt(scause) ==> *final(frame) == *old(frame) && a == (if cause_code(scause)
            == INT_TIMER_S {
            TrapAction::Preempt
        } else if cause_code(scause) == INT_EXTERNAL_S {
            TrapAction::External
        } else {
            TrapAction::UnknownInterrupt(cause_code(scause))
        }),
        !is_interrupt(scause) && cause_code(scause) == EXC_ECALL_U ==> a == TrapAction::Syscall
            && *final(frame) == (TrapFrame { sepc: sepc_after_ecall(old(frame).sepc), ..*old(frame) }),
        !is_interrupt(scause) && (cause_code(scause) == EXC_PAGE_FAULT_R || cause_code(scause)
            == EXC_PAGE_FAULT_W || cause_code(scause) == EXC_PAGE_FAULT_X) ==> a
            == TrapAction::PageFault(cause_code(scause)) && *final(frame) == *old(frame),
        !is_interrupt(scause) && cause_code(scause) != EXC_ECALL_U && cause_code(scause)
            != EXC_PAGE_FAULT_R && cause_code(scause) != EXC_PAGE_FAULT_W && cause_code(scause)
            != EXC_PAGE_FAULT_X ==> a == TrapAction::Unhandled(cause_code(scause)) && *final(frame)
            == *old(frame),
{
    let is_int = scause & SCAUSE_INTERRUPT != 0;
    let code = scause & SCAUSE_CODE;
    if is_int {
        if code == INT_TIMER_S {
            return TrapAction::Preempt;
        } else if code == INT_EXTERNAL_S {
            return TrapAction::External;
        } else {
            return TrapAction::UnknownInterrupt(code);
        }
    }
    if code == EXC_ECALL_U {
        frame.sepc = frame.sepc.wrapping_add(4);
        TrapAction::Syscall
    } else if code == EXC_PAGE_FAULT_R || code == EXC_PAGE_FAULT_W || code == EXC_PAGE_FAULT_X {
        TrapAction::PageFault(code)
    } else {
        TrapAction::Unhandled(code)
    }
}

/// the next timer deadline: one quantum after `now`.
pub fn next_deadline(now: u64) -> (d: u64)
    requires
        now + TIMER_QUANTUM <= u64::MAX,
    ensures
        d == now + TIMER_QUANTUM,
{
    now + TIMER_QUANTUM
}

} // verus!
