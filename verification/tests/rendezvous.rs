use lib::cap::Cap;
use lib::ipc::{
    recv, send, signal, wait, EndpointTable, IpcError, Message, RecvOutcome, SendOutcome, WaitOutcome,
    MAX_ENDPOINTS, MAX_NOTIFS, QUEUE_DEPTH,
};
use lib::mm;
use lib::sched::{Dispatch, Scheduler, State, SwitchFrom};

fn tasks(n: usize) -> (Scheduler, EndpointTable) {
    let (mut mem, _kpt) = mm::init(0x8020_0000);
    let mut s = Scheduler::new();
    for _ in 0..n {
        s.spawn(&mut mem, &vec![0u8; 64], 0x8020_1000);
    }
    s.start();
    (s, EndpointTable::new())
}

fn two_tasks() -> (Scheduler, EndpointTable) {
    tasks(2)
}

const MSG: Message = Message { label: 0xAA01, words: [1, 10, 100] };

fn pids(q: &[u32]) -> Vec<u32> {
    q.to_vec()
}

#[test]
fn fresh_pool_hands_out_endpoints_in_order() {
    let mut t = EndpointTable::new();
    assert_eq!(t.alloc_endpoint(), Some(0));
    assert_eq!(t.alloc_endpoint(), Some(1));
    assert!(t.eps[0].in_use && t.eps[1].in_use && !t.eps[2].in_use);
    for i in 2..MAX_ENDPOINTS {
        assert_eq!(t.alloc_endpoint(), Some(i as u8));
    }
    assert_eq!(t.alloc_endpoint(), None);
}

#[test]
fn alloc_skips_endpoints_with_waiters() {
    let (mut s, mut t) = two_tasks();
    let _ = recv(&mut t, &mut s, 0);
    assert_eq!(t.alloc_endpoint(), Some(1));
}

#[test]
fn notifications_are_handed_out_in_order() {
    let mut t = EndpointTable::new();
    for i in 0..MAX_NOTIFS {
        assert_eq!(t.alloc_notification(), Some(i as u8));
    }
    assert_eq!(t.alloc_notification(), None);
}

#[test]
fn bad_endpoint_is_refused() {
    let (mut s, mut t) = two_tasks();
    let (r, d) = send(&mut t, &mut s, MAX_ENDPOINTS as u8, MSG, None);
    assert_eq!(r, Err(IpcError::BadEndpoint));
    assert!(d.is_none());
    let (r, d) = recv(&mut t, &mut s, 200);
    assert!(matches!(r, Err(IpcError::BadEndpoint)));
    assert!(d.is_none());
    assert!(s.procs[0].state == State::Running);
}

#[test]
fn sender_first_rendezvous() {
    let (mut s, mut t) = two_tasks();
    let (r, d) = send(&mut t, &mut s, 0, MSG, Some(Cap::Endpoint(3)));
    assert_eq!(r, Ok(SendOutcome::Parked));
    assert!(d == Some(Dispatch::Switch { from: SwitchFrom::Task(0), to: 1 }));
    assert!(s.procs[0].state == State::BlockedOnSend(0));
    assert_eq!(t.eps[0].senders.len, 1);
    assert_eq!(t.eps[0].senders.items[0].pid, 1);
    // the receiver takes the parked message and grant and wakes the sender.
    s.kstack_frames[0].regs[10] = 99;
    let (r, d) = recv(&mut t, &mut s, 0);
    match r {
        Ok(RecvOutcome::Got(m, g)) => {
            assert_eq!(m.label, 0xAA01);
            assert_eq!(m.words, [1, 10, 100]);
            assert!(g == Some(Cap::Endpoint(3)));
        },
        _ => panic!("expected the parked message"),
    }
    assert!(d.is_none());
    assert!(s.procs[0].state == State::Ready);
    assert_eq!(s.kstack_frames[0].regs[10], 0);
    assert_eq!(t.eps[0].senders.len, 0);
}

#[test]
fn receiver_first_rendezvous() {
    let (mut s, mut t) = two_tasks();
    let (r, d) = recv(&mut t, &mut s, 2);
    assert!(matches!(r, Ok(RecvOutcome::Parked)));
    assert!(d == Some(Dispatch::Switch { from: SwitchFrom::Task(0), to: 1 }));
    assert!(s.procs[0].state == State::BlockedOnRecv(2));
    let (r, d) = send(&mut t, &mut s, 2, MSG, None);
    assert_eq!(r, Ok(SendOutcome::Delivered));
    assert!(d.is_none());
    let f = &s.kstack_frames[0];
    assert_eq!([f.regs[10], f.regs[11], f.regs[12], f.regs[13]], [0xAA01, 1, 10, 100]);
    assert!(s.procs[0].state == State::Ready);
    assert!(s.procs[1].state == State::Running);
    assert_eq!(t.eps[2].receivers.len, 0);
}

#[test]
fn a_grant_lands_in_the_parked_receivers_slot() {
    let (mut s, mut t) = two_tasks();
    s.set_current_grant_dst(7);
    let _ = recv(&mut t, &mut s, 0);
    let (r, _) = send(&mut t, &mut s, 0, MSG, Some(Cap::Endpoint(5)));
    assert_eq!(r, Ok(SendOutcome::Delivered));
    assert!(s.procs[0].caps.get(7) == Some(&Cap::Endpoint(5)));
}

#[test]
fn second_sender_parks_behind_the_first() {
    let (mut s, mut t) = tasks(3);
    // pid 1 and pid 2 send in turn; pid 3 receives twice.
    let (r, _) = send(&mut t, &mut s, 0, MSG, None);
    assert_eq!(r, Ok(SendOutcome::Parked));
    assert_eq!(s.current, 1);
    let (r, d) = send(&mut t, &mut s, 0, Message { label: 5, words: [0; 3] }, None);
    assert_eq!(r, Ok(SendOutcome::Parked));
    assert!(d == Some(Dispatch::Switch { from: SwitchFrom::Task(1), to: 2 }));
    assert_eq!(t.eps[0].senders.len, 2);
    assert_eq!([t.eps[0].senders.items[0].pid, t.eps[0].senders.items[1].pid], [1, 2]);
    let mut labels = Vec::new();
    for _ in 0..2 {
        if let (Ok(RecvOutcome::Got(m, _)), _) = recv(&mut t, &mut s, 0) {
            labels.push(m.label);
        }
    }
    assert_eq!(labels, vec![0xAA01, 5]);
    assert!(s.procs[0].state == State::Ready && s.procs[1].state == State::Ready);
}

#[test]
fn second_receiver_parks_behind_the_first() {
    let (mut s, mut t) = tasks(3);
    let _ = recv(&mut t, &mut s, 1);
    let (r, _) = recv(&mut t, &mut s, 1);
    assert!(matches!(r, Ok(RecvOutcome::Parked)));
    assert_eq!(pids(&t.eps[1].receivers.items[..t.eps[1].receivers.len]), vec![1, 2]);
    // the oldest receiver is served first.
    let (r, _) = send(&mut t, &mut s, 1, MSG, None);
    assert_eq!(r, Ok(SendOutcome::Delivered));
    assert!(s.procs[0].state == State::Ready && s.procs[1].state == State::BlockedOnRecv(1));
    assert_eq!(s.kstack_frames[0].regs[10], 0xAA01);
}

#[test]
fn full_sender_queue_is_busy() {
    let (mut s, mut t) = two_tasks();
    // fill the queue with parked sends of an absent pid.
    for _ in 0..QUEUE_DEPTH {
        t.eps[0].senders.push_back(lib::ipc::SendWait { pid: 4, msg: MSG, grant: None });
    }
    let (r, d) = send(&mut t, &mut s, 0, MSG, None);
    assert_eq!(r, Err(IpcError::Busy));
    assert!(d.is_none());
    assert!(s.procs[0].state == State::Running);
}

#[test]
fn blocking_with_no_one_else_halts() {
    let (mem, _) = mm::init(0x8020_0000);
    let mut mem = mem;
    let mut s = Scheduler::new();
    s.spawn(&mut mem, &vec![0u8; 64], 0);
    s.start();
    let mut t = EndpointTable::new();
    let (r, d) = send(&mut t, &mut s, 0, MSG, None);
    assert_eq!(r, Ok(SendOutcome::Parked));
    assert!(d == Some(Dispatch::Halt));
}

#[test]
fn exit_drops_the_exiting_tasks_waits() {
    let (mut s, mut t) = two_tasks();
    let _ = send(&mut t, &mut s, 3, MSG, None);
    // task 1 waits on endpoint 3; dropping its waits empties the queue.
    t.drop_waiters(1);
    assert_eq!(t.eps[3].senders.len, 0);
    let _ = recv(&mut t, &mut s, 4);
    t.drop_waiters(2);
    assert_eq!(t.eps[4].receivers.len, 0);
    // someone else's waits stay, in order.
    let mut t2 = EndpointTable::new();
    t2.eps[0].receivers.push_back(3);
    t2.eps[0].receivers.push_back(1);
    t2.eps[0].receivers.push_back(2);
    t2.drop_waiters(1);
    assert_eq!(pids(&t2.eps[0].receivers.items[..t2.eps[0].receivers.len]), vec![3, 2]);
    t2.notifs[1].waiter = Some(2);
    t2.drop_waiters(2);
    assert!(t2.notifs[1].waiter.is_none());
}

#[test]
fn ping_pong_five_messages() {
    // pong (pid 2) receives five labelled messages from ping (pid 1).
    let (mut s, mut t) = two_tasks();
    let mut got = Vec::new();
    for i in 0u64..5 {
        // ping runs: send, park.
        assert_eq!(s.current, 0);
        let (r, _) = send(&mut t, &mut s, 0, Message { label: 0xAA00 + i, words: [i, i * 10, i * 100] }, None);
        assert_eq!(r, Ok(SendOutcome::Parked));
        // pong runs: recv gets it immediately.
        assert_eq!(s.current, 1);
        if let (Ok(RecvOutcome::Got(m, _)), _) = recv(&mut t, &mut s, 0) {
            got.push(m.label);
        }
        // pong yields back to ping.
        s.yield_now();
    }
    assert_eq!(got, vec![0xAA00, 0xAA01, 0xAA02, 0xAA03, 0xAA04]);
}

#[test]
fn signal_then_wait_gets_the_bits() {
    let (mut s, mut t) = two_tasks();
    assert_eq!(signal(&mut t, &mut s, 2, 0b1011), Ok(()));
    let (r, d) = wait(&mut t, &mut s, 2);
    assert_eq!(r, Ok(WaitOutcome::Got(0b1011)));
    assert!(d.is_none());
    assert_eq!(t.notifs[2].bits, 0);
}

#[test]
fn signals_accumulate() {
    let (mut s, mut t) = two_tasks();
    let _ = signal(&mut t, &mut s, 0, 0b01);
    let _ = signal(&mut t, &mut s, 0, 0b100);
    assert_eq!(wait(&mut t, &mut s, 0).0, Ok(WaitOutcome::Got(0b101)));
}

#[test]
fn wait_parks_until_a_signal() {
    let (mut s, mut t) = two_tasks();
    let (r, d) = wait(&mut t, &mut s, 1);
    assert_eq!(r, Ok(WaitOutcome::Parked));
    assert!(d == Some(Dispatch::Switch { from: SwitchFrom::Task(0), to: 1 }));
    assert!(s.procs[0].state == State::BlockedOnNotif(1));
    // a second waiter is refused.
    let (r, d) = wait(&mut t, &mut s, 1);
    assert_eq!(r, Err(IpcError::Busy));
    assert!(d.is_none());
    // a signal of no bits wakes nobody.
    let _ = signal(&mut t, &mut s, 1, 0);
    assert!(s.procs[0].state == State::BlockedOnNotif(1));
    let _ = signal(&mut t, &mut s, 1, 0x40);
    assert!(s.procs[0].state == State::Ready);
    assert_eq!(s.kstack_frames[0].regs[10], 0x40);
    assert!(t.notifs[1].waiter.is_none() && t.notifs[1].bits == 0);
}

#[test]
fn bad_notification_is_refused() {
    let (mut s, mut t) = two_tasks();
    assert_eq!(signal(&mut t, &mut s, MAX_NOTIFS as u8, 1), Err(IpcError::BadNotification));
    assert_eq!(wait(&mut t, &mut s, 99).0, Err(IpcError::BadNotification));
}

#[test]
fn producer_order_holds_across_other_work() {
    let (mut s, mut t) = tasks(4);
    // pids 1 and 2 park as senders on endpoint 0.
    let _ = send(&mut t, &mut s, 0, MSG, None);
    let _ = send(&mut t, &mut s, 0, Message { label: 5, words: [0; 3] }, None);
    // pid 3 signals, then parks receiving on endpoint 6; pid 4 runs.
    let _ = signal(&mut t, &mut s, 0, 1);
    let _ = recv(&mut t, &mut s, 6);
    assert_eq!(s.current, 3);
    let (r1, _) = recv(&mut t, &mut s, 0);
    // more work in between: a send that serves the receiver on endpoint 6.
    let _ = send(&mut t, &mut s, 6, Message { label: 9, words: [0; 3] }, None);
    let (r2, _) = recv(&mut t, &mut s, 0);
    assert!(matches!(r1, Ok(RecvOutcome::Got(m, _)) if m.label == 0xAA01));
    assert!(matches!(r2, Ok(RecvOutcome::Got(m, _)) if m.label == 5));
}
