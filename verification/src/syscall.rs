//! System call dispatch. abi: a7 = syscall number, a0..a5 = args,
//! a0 = return value.
//!
//! syscalls:
//!   0  EXIT(code)              - shut the task down with an exit code
//!   1  HI                      - print a fixed greeting
//!   2  PUTC(byte)              - write one byte to the uart
//!   3  YIELD                   - cooperative reschedule
//!   4  WRITE(ptr, len)         - write `len` bytes at user va `ptr` to the uart
//!   5  SEND(cap, label, w0, w1, w2, grant_src)
//!                              - send on an endpoint cap, granting the cap
//!                                in slot grant_src (0xff: none)
//!   6  RECV(cap, grant_dst)    - receive on an endpoint cap into a0..a3; a
//!                                granted cap lands in slot grant_dst
//!   7  CAP_DUPE(src, dst)      - copy cap slot src into slot dst
//!   8  CAP_DELETE(slot)        - empty a cap slot
//!   9  NOTIFY_SIGNAL(cap, bits) - OR bits into a notification
//!  10  NOTIFY_WAIT(cap)        - take a notification's bits, waiting for some
//!
//! Failures return `ERR_BAD_CAP` (a cap or slot that does not name what
//! the call needs) or `ERR_BUSY` (a full wait queue, or a notification
//! that already has a waiter); an unknown number returns `u64::MAX`.

use vstd::prelude::*;

use crate::cap::{apply, lookup, Cap, CapOp, CAP_SLOTS};
use crate::ipc::{
    self, ipc_inv, received, sent, signalled, waited, EndpointTable, IpcError, Message, RecvOutcome,
    SendOutcome, WaitOutcome,
};
use crate::sched::{frames_kept, lemma_frames_kept_compose, with_state, Dispatch, Process, Scheduler, State, MAX_PROCS};
use crate::trap::TrapFrame;

verus! {

pub const SYS_EXIT: u64 = 0;

pub const SYS_HI: u64 = 1;

pub const SYS_PUTC: u64 = 2;

pub const SYS_YIELD: u64 = 3;

pub const SYS_WRITE: u64 = 4;

pub const SYS_SEND: u64 = 5;

pub const SYS_RECV: u64 = 6;

pub const SYS_CAP_DUPE: u64 = 7;

pub const SYS_CAP_DELETE: u64 = 8;

pub const SYS_NOTIFY_SIGNAL: u64 = 9;

pub const SYS_NOTIFY_WAIT: u64 = 10;

/// grant_src / grant_dst value meaning "no capability".
pub const NO_GRANT: u64 = 0xff;

/// a0 after a call whose cap or slot does not name what it needs.
pub const ERR_BAD_CAP: u64 = 0xffff_ffff_ffff_fffe;

/// a0 after a call refused because a queue is full or a waiter exists.
pub const ERR_BUSY: u64 = 0xffff_ffff_ffff_fffd;

/// upper bound on a single WRITE; tasks print more in chunks.
pub const WRITE_MAX: usize = 4096;

/// register name -> TrapFrame index.
pub const A0: usize = 10;

pub const A1: usize = 11;

pub const A2: usize = 12;

pub const A3: usize = 13;

pub const A4: usize = 14;

pub const A5: usize = 15;

pub const A7: usize = 17;

/// The work a system call asks of the kernel, or what it did.
#[derive(Clone, Copy)]
pub enum Syscall {
    /// end the task with this exit code (a0 is never written).
    Exit(u64),
    /// print the fixed greeting.
    Hi,
    /// write this byte to the uart.
    Putc(u8),
    /// reschedule.
    Yield,
    /// write `len` bytes starting at user address `ptr`.
    Write { ptr: u64, len: usize },
    /// unknown number: log it along with a0.
    Unknown { nr: u64, a0: u64 },
    /// a send was made with `msg`; perform `switch` when there is one.
    Send { msg: Message, result: Result<SendOutcome, IpcError>, switch: Option<Dispatch> },
    /// a receive was made; perform `switch` when there is one.
    Recv { result: Result<RecvOutcome, IpcError>, switch: Option<Dispatch> },
    /// a dupe was made on the caller's table.
    CapDupe(Result<(), &'static str>),
    /// a delete was made on the caller's table.
    CapDelete(Result<(), &'static str>),
    /// a notification was signalled.
    Signal(Result<(), IpcError>),
    /// a wait was made; perform `switch` when there is one.
    Wait { result: Result<WaitOutcome, IpcError>, switch: Option<Dispatch> },
}

/// what a call leaves in a0 for the task (none for EXIT).
pub open spec fn return_value(c: Syscall) -> u64 {
    match c {
        Syscall::Write { len, .. } => len as u64,
        Syscall::Unknown { .. } => u64::MAX,
        _ => 0,
    }
}

/// the call the registers of `f` encode.
pub open spec fn decode(f: TrapFrame) -> Syscall {
    let nr = f.regs@[A7 as int];
    let a0 = f.regs@[A0 as int];
    let a1 = f.regs@[A1 as int];
    if nr == SYS_EXIT {
        Syscall::Exit(a0)
    } else if nr == SYS_HI {
        Syscall::Hi
    } else if nr == SYS_PUTC {
        Syscall::Putc(a0 as u8)
    } else if nr == SYS_YIELD {
        Syscall::Yield
    } else if nr == SYS_WRITE {
        Syscall::Write {
            ptr: a0,
            len: if (a1 as usize) < WRITE_MAX {
                a1 as usize
            } else {
                WRITE_MAX
            },
        }
    } else {
        Syscall::Unknown { nr, a0 }
    }
}

/// the capability that register value `x` names in slots `caps`.
pub open spec fn cap_in(caps: Seq<Cap>, x: u64) -> Option<Cap> {
    if x < CAP_SLOTS {
        lookup(caps, x as int)
    } else {
        None
    }
}

/// `f1` is `f0` with a0 set to `v` when `v` is some value, or `f0`
/// itself when it is none (a parked task gets its a0 from whoever wakes
/// it).
pub open spec fn a0_set(f0: TrapFrame, f1: TrapFrame, v: Option<u64>) -> bool {
    match v {
        Some(x) => f1 == (TrapFrame { regs: f1.regs, ..f0 }) && f1.regs@ == f0.regs@.update(A0 as int, x),
        None => f1 == f0,
    }
}

/// what a0 becomes after an ipc call that failed with `e`.
pub open spec fn error_code(e: IpcError) -> u64 {
    match e {
        IpcError::Busy => ERR_BUSY,
        _ => ERR_BAD_CAP,
    }
}

/// what a0 becomes after a send.
pub open spec fn send_a0(r: Result<SendOutcome, IpcError>) -> Option<u64> {
    match r {
        Ok(SendOutcome::Delivered) => Some(0),
        Ok(SendOutcome::Parked) => None,
        Err(e) => Some(error_code(e)),
    }
}

/// what a0 becomes after a wait.
pub open spec fn wait_a0(r: Result<WaitOutcome, IpcError>) -> Option<u64> {
    match r {
        Ok(WaitOutcome::Got(b)) => Some(b),
        Ok(WaitOutcome::Parked) => None,
        Err(e) => Some(error_code(e)),
    }
}

/// what a0 becomes after a dupe or a delete.
pub open spec fn cap_a0(r: Result<(), &'static str>) -> u64 {
    match r {
        Ok(()) => 0,
        Err(_) => ERR_BAD_CAP,
    }
}

/// the slot a receive asks a granted cap to land in.
pub open spec fn grant_dst_of(a1: u64) -> u8 {
    if a1 < CAP_SLOTS {
        a1 as u8
    } else {
        NO_GRANT as u8
    }
}

/// `s1` is `s0` with the current task's caps replaced by `caps`.
pub open spec fn caps_now(s0: Scheduler, s1: Scheduler, caps: Seq<Cap>) -> bool {
    let cur = s0.current as int;
    &&& s1.current == s0.current
    &&& s1.procs@ == s0.procs@.update(cur, Process { caps: s1.procs@[cur].caps, ..s0.procs@[cur] })
    &&& s1.procs@[cur].caps@ == caps
    &&& s1.sched_ctx == s0.sched_ctx
    &&& s1.kstack_frames == s0.kstack_frames
}

/// `s1` is `s0` with the current task's grant destination set to `dst`.
pub open spec fn grant_dst_now(s0: Scheduler, s1: Scheduler, dst: u8) -> bool {
    let cur = s0.current as int;
    &&& s1.current == s0.current
    &&& s1.procs@ == s0.procs@.update(cur, Process { pending_grant_dst: dst, ..s0.procs@[cur] })
    &&& s1.sched_ctx == s0.sched_ctx
    &&& s1.kstack_frames == s0.kstack_frames
}

/// nothing in the kernel state changed.
pub open spec fn unchanged(t0: EndpointTable, s0: Scheduler, t1: EndpointTable, s1: Scheduler) -> bool {
    t1@ == t0@ && t1.nview() == t0.nview() && s1 == s0
}

/// What an ipc or capability call (numbers 5 to 10) made by the current
/// task does to its frame (`f0` to `f1`), the scheduler and the pools.
pub open spec fn served(
    f0: TrapFrame,
    s0: Scheduler,
    t0: EndpointTable,
    f1: TrapFrame,
    s1: Scheduler,
    t1: EndpointTable,
    c: Syscall,
) -> bool {
    let nr = f0.regs@[A7 as int];
    let a0 = f0.regs@[A0 as int];
    let a1 = f0.regs@[A1 as int];
    let caps = s0.procs@[s0.current as int].caps@;
    if nr == SYS_SEND {
        match c {
            Syscall::Send { msg, result, switch } => {
                &&& msg.label == a1
                &&& msg.words@ == seq![f0.regs@[A2 as int], f0.regs@[A3 as int], f0.regs@[A4 as int]]
                &&& match cap_in(caps, a0) {
                    Some(Cap::Endpoint(e)) => sent(
                        t0,
                        s0,
                        e,
                        msg,
                        cap_in(caps, f0.regs@[A5 as int]),
                        t1,
                        s1,
                        result,
                        switch,
                    ),
                    _ => result == Err::<SendOutcome, IpcError>(IpcError::BadCap) && switch is None
                        && unchanged(t0, s0, t1, s1),
                }
                &&& a0_set(f0, f1, send_a0(result))
            },
            _ => false,
        }
    } else if nr == SYS_RECV {
        match c {
            Syscall::Recv { result, switch } => match cap_in(caps, a0) {
                Some(Cap::Endpoint(e)) => exists|sm: Scheduler, sr: Scheduler|
                    #![trigger grant_dst_now(s0, sm, grant_dst_of(a1)), received(t0, sm, e, t1, sr, result, switch)]
                    {
                        &&& grant_dst_now(s0, sm, grant_dst_of(a1))
                        &&& received(t0, sm, e, t1, sr, result, switch)
                        &&& match result {
                            Ok(RecvOutcome::Got(m, g)) => {
                                &&& caps_now(sr, s1, apply(sr.procs@[sr.current as int].caps@, CapOp::Install { slot: grant_dst_of(a1) as usize, cap: match g { Some(x) => x, None => sr.procs@[sr.current as int].caps@[grant_dst_of(a1) as int] } }))
                                &&& f1 == (TrapFrame { regs: f1.regs, ..f0 })
                                &&& f1.regs@ == f0.regs@.update(A0 as int, m.label).update(A1 as int, m.words@[0]).update(A2 as int, m.words@[1]).update(A3 as int, m.words@[2])
                            },
                            Ok(RecvOutcome::Parked) => s1 == sr && f1 == f0,
                            Err(e) => s1 == sr && a0_set(f0, f1, Some(error_code(e))),
                        }
                    },
                _ => result == Err::<RecvOutcome, IpcError>(IpcError::BadCap) && switch is None
                    && unchanged(t0, s0, t1, s1) && a0_set(f0, f1, Some(ERR_BAD_CAP)),
            },
            _ => false,
        }
    } else if nr == SYS_CAP_DUPE {
        match c {
            Syscall::CapDupe(r) => {
                let op = CapOp::Dupe { src: a0 as usize, dst: a1 as usize };
                &&& t1@ == t0@ && t1.nview() == t0.nview()
                &&& if a0 < CAP_SLOTS && a1 < CAP_SLOTS {
                    &&& caps_now(s0, s1, apply(caps, op))
                    &&& (r is Ok <==> caps[a0 as int] != Cap::Empty)
                } else {
                    s1 == s0 && r is Err
                }
                &&& a0_set(f0, f1, Some(cap_a0(r)))
            },
            _ => false,
        }
    } else if nr == SYS_CAP_DELETE {
        match c {
            Syscall::CapDelete(r) => {
                &&& t1@ == t0@ && t1.nview() == t0.nview()
                &&& if a0 < CAP_SLOTS {
                    caps_now(s0, s1, apply(caps, CapOp::Delete { slot: a0 as usize })) && r is Ok
                } else {
                    s1 == s0 && r is Err
                }
                &&& a0_set(f0, f1, Some(cap_a0(r)))
            },
            _ => false,
        }
    } else if nr == SYS_NOTIFY_SIGNAL {
        match c {
            Syscall::Signal(r) => {
                &&& match cap_in(caps, a0) {
                    Some(Cap::Notification(n)) => signalled(t0, s0, n, a1, t1, s1, r),
                    _ => r == Err::<(), IpcError>(IpcError::BadCap) && unchanged(t0, s0, t1, s1),
                }
                &&& a0_set(f0, f1, Some(match r { Ok(()) => 0u64, Err(e) => error_code(e) }))
            },
            _ => false,
        }
    } else if nr == SYS_NOTIFY_WAIT {
        match c {
            Syscall::Wait { result, switch } => {
                &&& match cap_in(caps, a0) {
                    Some(Cap::Notification(n)) => waited(t0, s0, n, t1, s1, result, switch),
                    _ => result == Err::<WaitOutcome, IpcError>(IpcError::BadCap) && switch is None
                        && unchanged(t0, s0, t1, s1),
                }
                &&& a0_set(f0, f1, wait_a0(result))
            },
            _ => false,
        }
    } else {
        false
    }
}

/// Carry out the system call in `frame`. The calls 0 to 4 (and unknown
/// numbers) are decoded for the platform (with or without a running task), with
/// their return value left in a0 (EXIT leaves the frame alone: the task
/// never resumes); the ipc and capability calls 5 to 10, made by the
/// running task, are carried out on the scheduler and the pools here.
pub fn dispatch(frame: &mut TrapFrame, sched: &mut Scheduler, pool: &mut EndpointTable) -> (c: Syscall)
    requires
        SYS_SEND <= old(frame).regs@[A7 as int] <= SYS_NOTIFY_WAIT ==> ipc_inv(*old(pool), *old(sched))
            && old(sched).current < MAX_PROCS,
    ensures
        (SYS_SEND <= old(frame).regs@[A7 as int] <= SYS_NOTIFY_WAIT) ==> served(
            *old(frame),
            *old(sched),
            *old(pool),
            *final(frame),
            *final(sched),
            *final(pool),
            c,
        ),
        !(SYS_SEND <= old(frame).regs@[A7 as int] <= SYS_NOTIFY_WAIT) ==> {
            &&& c == decode(*old(frame))
            &&& unchanged(*old(pool), *old(sched), *final(pool), *final(sched))
            &&& c is Exit ==> *final(frame) == *old(frame)
            &&& !(c is Exit) ==> a0_set(*old(frame), *final(frame), Some(return_value(c)))
        },
        (match c {
            Syscall::Send { switch, .. } => switch,
            Syscall::Recv { switch, .. } => switch,
            Syscall::Wait { switch, .. } => switch,
            _ => None,
        }) != Some(Dispatch::Halt) && ipc_inv(*old(pool), *old(sched)) ==> ipc_inv(*final(pool), *final(sched)),
        frames_kept(*old(sched), *final(sched)),
{
    let nr = frame.regs[A7];
    let a0 = frame.regs[A0];
    let a1 = frame.regs[A1];
    if SYS_SEND <= nr && nr <= SYS_NOTIFY_WAIT {
        return serve(frame, sched, pool);
    }
    let c = if nr == SYS_EXIT {
        return Syscall::Exit(a0);
    } else if nr == SYS_HI {
        Syscall::Hi
    } else if nr == SYS_PUTC {
        Syscall::Putc(a0 as u8)
    } else if nr == SYS_YIELD {
        Syscall::Yield
    } else if nr == SYS_WRITE {
        let req = a1 as usize;
        let len = if req < WRITE_MAX {
            req
        } else {
            WRITE_MAX
        };
        Syscall::Write { ptr: a0, len }
    } else {
        Syscall::Unknown { nr, a0 }
    };
    let ret: u64 = match c {
        Syscall::Write { len, .. } => len as u64,
        Syscall::Unknown { .. } => u64::MAX,
        _ => 0,
    };
    frame.regs[A0] = ret;
    c
}

/// the capability register value `x` names in the running task's table.
fn cap_of(sched: &Scheduler, x: u64) -> (r: Option<Cap>)
    requires
        sched.current < MAX_PROCS,
    ensures
        r == cap_in(sched.procs@[sched.current as int].caps@, x),
{
    if x < CAP_SLOTS as u64 {
        match sched.procs[sched.current].caps.get(x as usize) {
            Some(c) => Some(*c),
            None => None,
        }
    } else {
        None
    }
}

/// the calls 5 to 10.
fn serve(frame: &mut TrapFrame, sched: &mut Scheduler, pool: &mut EndpointTable) -> (c: Syscall)
    requires
        ipc_inv(*old(pool), *old(sched)),
        old(sched).current < MAX_PROCS,
        SYS_SEND <= old(frame).regs@[A7 as int] <= SYS_NOTIFY_WAIT,
    ensures
        served(*old(frame), *old(sched), *old(pool), *final(frame), *final(sched), *final(pool), c),
        (match c {
            Syscall::Send { switch, .. } => switch,
            Syscall::Recv { switch, .. } => switch,
            Syscall::Wait { switch, .. } => switch,
            _ => None,
        }) != Some(Dispatch::Halt) ==> ipc_inv(*final(pool), *final(sched)),
        frames_kept(*old(sched), *final(sched)),
{
    let nr = frame.regs[A7];
    let a0 = frame.regs[A0];
    let a1 = frame.regs[A1];
    if nr == SYS_SEND {
        let msg = Message { label: a1, words: [frame.regs[A2], frame.regs[A3], frame.regs[A4]] };
        let (result, switch) = match cap_of(sched, a0) {
            Some(Cap::Endpoint(e)) => {
                let grant = cap_of(sched, frame.regs[A5]);
                ipc::send(pool, sched, e, msg, grant)
            },
            _ => (Err(IpcError::BadCap), None),
        };
        match result {
            Ok(SendOutcome::Delivered) => { frame.regs[A0] = 0; },
            Ok(SendOutcome::Parked) => {},
            Err(IpcError::Busy) => { frame.regs[A0] = ERR_BUSY; },
            Err(_) => { frame.regs[A0] = ERR_BAD_CAP; },
        }
        assert(msg.words@ =~= seq![old(frame).regs@[A2 as int], old(frame).regs@[A3 as int], old(frame).regs@[A4 as int]]);
        Syscall::Send { msg, result, switch }
    } else if nr == SYS_RECV {
        match cap_of(sched, a0) {
            Some(Cap::Endpoint(e)) => {
                let dst: u8 = if a1 < CAP_SLOTS as u64 { a1 as u8 } else { NO_GRANT as u8 };
                sched.set_current_grant_dst(dst);
                let ghost sm = *sched;
                proof { lemma_inv_grant_dst(*old(pool), *old(sched), sm); }
                let (result, switch) = ipc::recv(pool, sched, e);
                let ghost sr = *sched;
                proof { lemma_frames_kept_compose(*old(sched), sm, sr); }
                match result {
                    Ok(RecvOutcome::Got(m, g)) => {
                        if let Some(x) = g {
                            let caps = sched.current_caps_mut();
                            let _ = caps.install(dst as usize, x);
                            proof {
                                lemma_inv_caps(*pool, sr, *sched);
                                lemma_frames_kept_compose(*old(sched), sr, *sched);
                            }
                        } else {
                            let ghost cs = sr.procs@[sr.current as int].caps@;
                            assert(apply(cs, CapOp::Install { slot: dst as usize, cap: cs[dst as int] }) =~= cs);
                            assert(sched.procs@ =~= sr.procs@.update(
                                sr.current as int,
                                Process { caps: sr.procs@[sr.current as int].caps, ..sr.procs@[sr.current as int] },
                            ));
                        }
                        frame.regs[A0] = m.label;
                        frame.regs[A1] = m.words[0];
                        frame.regs[A2] = m.words[1];
                        frame.regs[A3] = m.words[2];
                    },
                    Ok(RecvOutcome::Parked) => {},
                    Err(IpcError::Busy) => { frame.regs[A0] = ERR_BUSY; },
                    Err(_) => { frame.regs[A0] = ERR_BAD_CAP; },
                }
                assert(grant_dst_now(*old(sched), sm, grant_dst_of(a1)));
                assert(received(*old(pool), sm, e, *pool, sr, result, switch));
                Syscall::Recv { result, switch }
            },
            _ => {
                frame.regs[A0] = ERR_BAD_CAP;
                Syscall::Recv { result: Err(IpcError::BadCap), switch: None }
            },
        }
    } else if nr == SYS_CAP_DUPE {
        if a0 < CAP_SLOTS as u64 && a1 < CAP_SLOTS as u64 {
            let ghost s0 = *sched;
            let caps = sched.current_caps_mut();
            let r = caps.dupe(a0 as usize, a1 as usize);
            proof { lemma_inv_caps(*pool, s0, *sched); }
            frame.regs[A0] = if r.is_ok() { 0 } else { ERR_BAD_CAP };
            Syscall::CapDupe(r)
        } else {
            frame.regs[A0] = ERR_BAD_CAP;
            Syscall::CapDupe(Err("slot out of range"))
        }
    } else if nr == SYS_CAP_DELETE {
        if a0 < CAP_SLOTS as u64 {
            let ghost s0 = *sched;
            let caps = sched.current_caps_mut();
            let r = caps.delete(a0 as usize);
            proof { lemma_inv_caps(*pool, s0, *sched); }
            frame.regs[A0] = if r.is_ok() { 0 } else { ERR_BAD_CAP };
            Syscall::CapDelete(r)
        } else {
            frame.regs[A0] = ERR_BAD_CAP;
            Syscall::CapDelete(Err("slot out of range"))
        }
    } else if nr == SYS_NOTIFY_SIGNAL {
        let r = match cap_of(sched, a0) {
            Some(Cap::Notification(n)) => ipc::signal(pool, sched, n, a1),
            _ => Err(IpcError::BadCap),
        };
        frame.regs[A0] = match r {
            Ok(()) => 0,
            Err(IpcError::Busy) => ERR_BUSY,
            Err(_) => ERR_BAD_CAP,
        };
        Syscall::Signal(r)
    } else {
        let (result, switch) = match cap_of(sched, a0) {
            Some(Cap::Notification(n)) => ipc::wait(pool, sched, n),
            _ => (Err(IpcError::BadCap), None),
        };
        match result {
            Ok(WaitOutcome::Got(b)) => { frame.regs[A0] = b; },
            Ok(WaitOutcome::Parked) => {},
            Err(IpcError::Busy) => { frame.regs[A0] = ERR_BUSY; },
            Err(_) => { frame.regs[A0] = ERR_BAD_CAP; },
        }
        Syscall::Wait { result, switch }
    }
}

/// Setting the running task's grant destination moves nobody into or out
/// of a wait.
proof fn lemma_inv_grant_dst(t: EndpointTable, s0: Scheduler, s1: Scheduler)
    requires
        ipc_inv(t, s0),
        s0.current < MAX_PROCS,
        s1.current == s0.current,
        s1.procs@ == s0.procs@.update(
            s0.current as int,
            Process { pending_grant_dst: s1.procs@[s0.current as int].pending_grant_dst, ..s0.procs@[s0.current as int] },
        ),
    ensures
        ipc_inv(t, s1),
{
    ipc::lemma_inv_same_waits(t, s0, s1);
}

/// Changing the running task's caps moves nobody into or out of a wait.
proof fn lemma_inv_caps(t: EndpointTable, s0: Scheduler, s1: Scheduler)
    requires
        s0.current < MAX_PROCS,
        s1.current == s0.current,
        s1.procs@ == s0.procs@.update(
            s0.current as int,
            Process { caps: s1.procs@[s0.current as int].caps, ..s0.procs@[s0.current as int] },
        ),
    ensures
        ipc_inv(t, s0) ==> ipc_inv(t, s1),
{
    if ipc_inv(t, s0) {
        ipc::lemma_inv_same_waits(t, s0, s1);
    }
}

/// The calls 0 to 3 and unknown numbers, by their registers: EXIT carries
/// a0 as its code; HI and YIELD return 0; PUTC writes the low byte of a0
/// and returns 0; a number above NOTIFY_WAIT is unknown and returns all
/// ones.
pub proof fn lemma_simple_calls(f: TrapFrame)
    ensures
        f.regs@[A7 as int] == SYS_EXIT ==> (decode(f) matches Syscall::Exit(code) && code == f.regs@[A0 as int]),
        f.regs@[A7 as int] == SYS_HI ==> decode(f) is Hi && return_value(decode(f)) == 0,
        f.regs@[A7 as int] == SYS_YIELD ==> decode(f) is Yield && return_value(decode(f)) == 0,
        f.regs@[A7 as int] == SYS_PUTC ==> (decode(f) matches Syscall::Putc(b) && b as int == f.regs@[A0 as int]
            % 256 && return_value(decode(f)) == 0),
        f.regs@[A7 as int] > SYS_NOTIFY_WAIT ==> (decode(f) matches Syscall::Unknown { nr, a0 } && nr
            == f.regs@[A7 as int] && a0 == f.regs@[A0 as int] && return_value(decode(f)) == u64::MAX),
{
    let a0 = f.regs@[A0 as int];
    assert(a0 as u8 == a0 % 256) by (bit_vector);
}

/// WRITE asks for min(a1, WRITE_MAX) bytes from a0: the requested length
/// itself when it is at most WRITE_MAX, WRITE_MAX otherwise; the task
/// gets that length back in a0.
pub proof fn lemma_write_length_is_min(f: TrapFrame)
    requires
        f.regs@[A7 as int] == SYS_WRITE,
    ensures
        ({
            let req = f.regs@[A1 as int] as usize;
            let want = if req <= WRITE_MAX {
                req
            } else {
                WRITE_MAX
            };
            &&& decode(f) matches Syscall::Write { ptr, len } && ptr == f.regs@[A0 as int] && len == want
            &&& return_value(decode(f)) == want as u64
            &&& want <= WRITE_MAX
            &&& want <= req
        }),
{
}

/// A receive that names a real slot in a1 and takes a message with a
/// granted capability `g` leaves `g` in exactly that slot of the
/// receiver's table; every other slot is as before.
pub proof fn lemma_recv_grant_lands_in_a1(
    f0: TrapFrame,
    s0: Scheduler,
    t0: EndpointTable,
    f1: TrapFrame,
    s1: Scheduler,
    t1: EndpointTable,
    m: Message,
    g: Cap,
    switch: Option<Dispatch>,
)
    requires
        served(f0, s0, t0, f1, s1, t1, Syscall::Recv { result: Ok(RecvOutcome::Got(m, Some(g))), switch }),
        f0.regs@[A7 as int] == SYS_RECV,
        f0.regs@[A1 as int] < CAP_SLOTS,
        s0.current < MAX_PROCS,
        ipc_inv(t0, s0),
    ensures
        s1.current == s0.current,
        s1.procs@[s0.current as int].caps@[f0.regs@[A1 as int] as int] == g,
        forall|k: int|
            0 <= k < CAP_SLOTS && k != f0.regs@[A1 as int] ==> #[trigger] s1.procs@[s0.current as int].caps@[k]
                == s0.procs@[s0.current as int].caps@[k],
        f1.regs@[A0 as int] == m.label,
{
    let a1 = f0.regs@[A1 as int];
    let caps = s0.procs@[s0.current as int].caps@;
    let e = cap_in(caps, f0.regs@[A0 as int]).unwrap()->Endpoint_0;
    let (sm, sr) = choose|sm: Scheduler, sr: Scheduler|
        #![trigger grant_dst_now(s0, sm, grant_dst_of(a1)), received(t0, sm, e, t1, sr, Ok::<RecvOutcome, IpcError>(RecvOutcome::Got(m, Some(g))), switch)]
        {
            &&& grant_dst_now(s0, sm, grant_dst_of(a1))
            &&& received(t0, sm, e, t1, sr, Ok::<RecvOutcome, IpcError>(RecvOutcome::Got(m, Some(g))), switch)
            &&& caps_now(sr, s1, apply(sr.procs@[sr.current as int].caps@, CapOp::Install { slot: grant_dst_of(a1) as usize, cap: g }))
            &&& f1 == (TrapFrame { regs: f1.regs, ..f0 })
            &&& f1.regs@ == f0.regs@.update(A0 as int, m.label).update(A1 as int, m.words@[0]).update(A2 as int, m.words@[1]).update(A3 as int, m.words@[2])
        };
    assert(grant_dst_of(a1) as int == a1);
    assert(sm.current == s0.current);
    assert(sr.current == sm.current);
    let cur = s0.current as int;
    assert(sm.procs@[cur].caps == s0.procs@[cur].caps);
    assert(t0@[e as int].senders.len() > 0);
    let wi = t0@[e as int].senders[0].pid - 1;
    assert(ipc::parked_in(s0, t0@[e as int].senders[0].pid, State::BlockedOnSend(e)));
    assert(sr.procs@ == sm.procs@.update(wi, with_state(sm.procs@[wi], State::Ready)));
    if wi == cur {
        assert(sr.procs@[cur] == with_state(sm.procs@[cur], State::Ready));
    } else {
        assert(sr.procs@[cur] == sm.procs@[cur]);
    }
    assert(sr.procs@[sr.current as int].caps@ == caps);
}

/// A receive that names a real slot in a1 and parks records that slot as
/// where a granted capability must land when a sender serves it.
pub proof fn lemma_parked_recv_records_a1(
    f0: TrapFrame,
    s0: Scheduler,
    t0: EndpointTable,
    f1: TrapFrame,
    s1: Scheduler,
    t1: EndpointTable,
    switch: Option<Dispatch>,
)
    requires
        served(f0, s0, t0, f1, s1, t1, Syscall::Recv { result: Ok(RecvOutcome::Parked), switch }),
        f0.regs@[A7 as int] == SYS_RECV,
        f0.regs@[A1 as int] < CAP_SLOTS,
        s0.current < MAX_PROCS,
    ensures
        s1.procs@[s0.current as int].pending_grant_dst as int == f0.regs@[A1 as int],
        f1 == f0,
{
    let a1 = f0.regs@[A1 as int];
    let caps = s0.procs@[s0.current as int].caps@;
    let e = cap_in(caps, f0.regs@[A0 as int]).unwrap()->Endpoint_0;
    let (sm, sr) = choose|sm: Scheduler, sr: Scheduler|
        #![trigger grant_dst_now(s0, sm, grant_dst_of(a1)), received(t0, sm, e, t1, sr, Ok::<RecvOutcome, IpcError>(RecvOutcome::Parked), switch)]
        {
            &&& grant_dst_now(s0, sm, grant_dst_of(a1))
            &&& received(t0, sm, e, t1, sr, Ok::<RecvOutcome, IpcError>(RecvOutcome::Parked), switch)
            &&& s1 == sr && f1 == f0
        };
    let cur = s0.current as int;
    assert(sm.current == s0.current);
    assert(sm.procs@[cur].pending_grant_dst as int == a1);
    let mid = sm.procs@.update(cur, with_state(sm.procs@[cur], State::BlockedOnRecv(e)));
    crate::sched::lemma_pick_next_ready(mid, cur);
    assert(mid[cur].pending_grant_dst == sm.procs@[cur].pending_grant_dst);
}

} // verus!
