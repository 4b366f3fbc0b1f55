use lib::cap::{Cap, CAP_SLOTS};
use lib::ipc::{EndpointTable, Message};
use lib::mm::{self, PhysMem, PAGE_SIZE};
use lib::sched::{self, Dispatch, Scheduler, State, SwitchFrom, FRAME_SIZE, MAX_PROCS};

const TRAMPOLINE: u64 = 0x8020_1000;

fn booted(n: usize) -> (Scheduler, PhysMem) {
    let (mut mem, _kpt) = mm::init(0x8020_0000);
    let mut s = Scheduler::new();
    for _ in 0..n {
        s.spawn(&mut mem, &vec![0u8; 100], TRAMPOLINE);
    }
    (s, mem)
}

#[test]
fn new_table_is_empty() {
    let s = Scheduler::new();
    assert_eq!(s.current, MAX_PROCS);
    assert!(s.procs.iter().all(|p| p.state == State::Unused));
    assert!(s.current().is_none());
    assert_eq!(s.current_pid(), 0);
}

#[test]
fn spawn_builds_a_ready_task() {
    let (mut mem, _kpt) = mm::init(0x8020_0000);
    let start = mem.next_free();
    let mut s = Scheduler::new();
    let sp = s.spawn(&mut mem, &vec![0u8; 5000], TRAMPOLINE);
    assert_eq!(sp.pid, 1);
    assert_eq!(sp.pt, start);
    assert_eq!(sp.code_pages.len(), 2);
    assert_eq!(sp.stack_pages.len(), 4);
    // 70 kernel-map tables + 2 code + 2 tables + 4 stack + 1 table + 4 kernel stack.
    assert_eq!(mem.next_free(), start + 83 * PAGE_SIZE);
    let p = &s.procs[0];
    assert_eq!(p.pid, 1);
    assert!(p.state == State::Ready);
    assert_eq!(p.kstack_top, mem.next_free() as u64);
    assert_eq!(p.kctx.ra, TRAMPOLINE);
    assert_eq!(p.kctx.sp, p.kstack_top);
    assert_eq!(p.frame.sepc, 0x4000_0000);
    assert_eq!(p.frame.regs[2], 0x4100_4000);
    assert_eq!(p.frame.sstatus, (1 << 5) | (1 << 18));
    assert_eq!(p.user_entry, 0x4000_0000);
    assert_eq!(p.user_sp, 0x4100_4000);
    assert_eq!(p.pending_grant_dst, 0xff);
    for slot in 0..CAP_SLOTS {
        assert!(p.caps.get(slot).is_none());
    }
    // the code and stack pages lie between the tables and the kernel stack.
    assert!(sp.code_pages[0] < sp.code_pages[1]);
    assert!(sp.stack_pages[3] < mem.next_free() - 4 * PAGE_SIZE);
    assert!(mem.table_at(sp.code_pages[0]).is_none());
}

#[test]
fn spawn_fills_slots_in_order() {
    let (s, _mem) = booted(3);
    assert_eq!(s.procs[0].pid, 1);
    assert_eq!(s.procs[1].pid, 2);
    assert_eq!(s.procs[2].pid, 3);
    assert!(s.procs[3].state == State::Unused);
}

#[test]
fn start_runs_the_first_ready_task() {
    let (mut s, _mem) = booted(2);
    assert_eq!(s.pick_next(MAX_PROCS), 0);
    let d = s.start();
    assert!(d == Dispatch::Switch { from: SwitchFrom::Scheduler, to: 0 });
    assert_eq!(s.current, 0);
    assert!(s.procs[0].state == State::Running);
    assert_eq!(s.current_pid(), 1);
    assert_eq!(s.current().unwrap().pid, 1);
}

#[test]
fn yield_alternates_between_two_tasks() {
    let (mut s, _mem) = booted(2);
    s.start();
    assert!(s.yield_now() == Some(Dispatch::Switch { from: SwitchFrom::Task(0), to: 1 }));
    assert!(s.procs[0].state == State::Ready);
    assert!(s.procs[1].state == State::Running);
    assert!(s.yield_now() == Some(Dispatch::Switch { from: SwitchFrom::Task(1), to: 0 }));
    assert_eq!(s.current, 0);
}

#[test]
fn yield_alone_keeps_the_cpu() {
    let (mut s, _mem) = booted(1);
    s.start();
    assert!(s.yield_now().is_none());
    assert_eq!(s.current, 0);
    assert!(s.procs[0].state == State::Running);
}

#[test]
fn round_robin_order_wraps() {
    let (mut s, _mem) = booted(4);
    s.start();
    assert_eq!(s.pick_next(2), 3);
    assert_eq!(s.pick_next(3), 1);
    s.procs[1].state = State::Exited;
    assert_eq!(s.pick_next(3), 2);
    assert_eq!(s.pick_next(0), 2);
}

#[test]
fn blocking_switches_away_or_halts() {
    let (mut s, _mem) = booted(2);
    s.start();
    let d = s.block_on_send(0);
    assert!(d == Dispatch::Switch { from: SwitchFrom::Task(0), to: 1 });
    assert!(s.procs[0].state == State::BlockedOnSend(0));
    // the second task blocks too: nothing can run.
    let d = s.block_on_recv(3);
    assert!(d == Dispatch::Halt);
    assert!(s.procs[1].state == State::BlockedOnRecv(3));
}

#[test]
fn block_on_notif_records_the_notification() {
    let (mut s, _mem) = booted(2);
    s.start();
    s.block_on_notif(2);
    assert!(s.procs[0].state == State::BlockedOnNotif(2));
    assert_eq!(s.current, 1);
}

#[test]
fn exit_switches_to_next_and_finally_halts() {
    let (mut s, _mem) = booted(2);
    let mut eps = EndpointTable::new();
    s.start();
    let d = s.exit_current(&mut eps);
    assert!(d == Dispatch::Switch { from: SwitchFrom::Discard, to: 1 });
    assert!(s.procs[0].state == State::Exited);
    assert!(s.exit_current(&mut eps) == Dispatch::Halt);
    assert!(s.procs[1].state == State::Exited);
}

#[test]
fn wake_sets_status_and_readies() {
    let (mut s, _mem) = booted(2);
    s.start();
    s.block_on_send(1);
    s.wake_with_status(1, 0);
    assert!(s.procs[0].state == State::Ready);
    assert_eq!(s.kstack_frames[0].regs[10], 0);
    s.kstack_frames[0].regs[10] = 77;
    s.block_on_recv(1);
    s.wake_with_status(2, 5);
    assert_eq!(s.kstack_frames[1].regs[10], 5);
    assert_eq!(s.kstack_frames[0].regs[10], 77);
}

#[test]
fn deliver_fills_a0_to_a3_and_installs_grant() {
    let (mut s, _mem) = booted(2);
    s.start();
    s.set_current_grant_dst(7);
    assert_eq!(s.procs[0].pending_grant_dst, 7);
    s.block_on_recv(0);
    let msg = Message { label: 0xAA00, words: [1, 10, 100] };
    s.deliver_to(1, msg, Some(Cap::Endpoint(0)));
    let f = &s.kstack_frames[0];
    assert_eq!([f.regs[10], f.regs[11], f.regs[12], f.regs[13]], [0xAA00, 1, 10, 100]);
    assert!(s.procs[0].state == State::Ready);
    assert!(matches!(s.procs[0].caps.get(7), Some(Cap::Endpoint(0))));
}

#[test]
fn deliver_drops_grant_for_out_of_range_slot() {
    let (mut s, _mem) = booted(2);
    s.start();
    s.block_on_recv(0);
    // pending_grant_dst is still 0xff.
    s.deliver_to(1, Message { label: 1, words: [0; 3] }, Some(Cap::Endpoint(2)));
    for slot in 0..CAP_SLOTS {
        assert!(s.procs[0].caps.get(slot).is_none());
    }
}

#[test]
fn pid_lookup() {
    let (s, _mem) = booted(2);
    assert_eq!(s.idx_for(1), Some(0));
    assert_eq!(s.idx_for(2), Some(1));
    assert_eq!(s.idx_for(3), None);
    assert_eq!(s.idx_for(0), None);
}

#[test]
fn install_cap_by_pid() {
    let (mut s, _mem) = booted(2);
    s.install_cap(2, 0, Cap::Endpoint(3));
    assert!(matches!(s.procs[1].caps.get(0), Some(Cap::Endpoint(3))));
    assert!(s.procs[0].caps.get(0).is_none());
}

#[test]
fn current_caps_are_the_running_tasks() {
    let (mut s, _mem) = booted(2);
    s.start();
    s.yield_now();
    s.current_caps_mut().install(4, Cap::Endpoint(1)).unwrap();
    assert!(matches!(s.procs[1].caps.get(4), Some(Cap::Endpoint(1))));
    assert!(s.procs[0].caps.get(4).is_none());
}

#[test]
fn frame_address_and_runtime() {
    let (s, _mem) = booted(1);
    let top = s.procs[0].kstack_top;
    assert_eq!(s.frame_of(0), top - FRAME_SIZE);
    let (scratch, satp) = s.install_runtime(0);
    assert_eq!(scratch, top);
    assert_eq!(satp, mm::satp_for(s.procs[0].pt));
}

#[test]
fn save_and_load_frame() {
    let (mut s, _mem) = booted(1);
    let mut f = lib::trap::TrapFrame::default();
    f.regs[5] = 55;
    // nothing runs: save does nothing, load leaves the frame alone.
    s.save_frame(&f);
    assert_eq!(s.procs[0].frame.regs[5], 0);
    s.start();
    s.save_frame(&f);
    assert_eq!(s.procs[0].frame.regs[5], 55);
    let mut g = lib::trap::TrapFrame::default();
    s.load_frame(&mut g);
    assert_eq!(g.regs[5], 55);
}

#[test]
fn spawn_page_budget() {
    assert_eq!(sched::pages_needed_to_spawn(5000), 83);
    assert_eq!(sched::pages_needed_to_spawn(0), 70 + 6 + 4);
}

#[test]
fn saved_frame_survives_other_scheduling() {
    let (mut s, _mem) = booted(2);
    s.start();
    let mut f = lib::trap::TrapFrame::default();
    f.regs[10] = 0x1234;
    f.sepc = 0x4000_0010;
    s.save_frame(&f);
    // the other task runs and comes back.
    s.yield_now();
    s.set_current_grant_dst(3);
    s.yield_now();
    assert_eq!(s.current, 0);
    let mut g = lib::trap::TrapFrame::default();
    s.load_frame(&mut g);
    assert_eq!(g.regs[10], 0x1234);
    assert_eq!(g.sepc, 0x4000_0010);
}
