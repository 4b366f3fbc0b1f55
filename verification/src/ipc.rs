//! Inter-process communication.
//!
//! Endpoints carry synchronous messages (one label and three data words,
//! passed in a0..a3) with an optional granted capability. Each endpoint
//! keeps FIFO wait queues of parked senders and parked receivers, at most
//! `QUEUE_DEPTH` deep each; at most one of the two is non-empty.
//!
//! Notifications are asynchronous: each holds a 64-bit signal set that
//! `signal` ORs bits into and `wait` takes (and clears), parking a single
//! waiter while the set is empty.

use vstd::prelude::*;

use crate::cap::Cap;
use crate::sched::{blocked, delivered, frames_kept, woken, Dispatch, Scheduler, State, MAX_PROCS};

verus! {

pub const MAX_ENDPOINTS: usize = 8;

pub const MAX_NOTIFS: usize = 8;

/// how many tasks can park in each direction of one endpoint.
pub const QUEUE_DEPTH: usize = 8;

pub type EndpointId = u8;

pub type NotifId = u8;

#[derive(Clone, Copy)]
pub struct Message {
    pub label: u64,
    pub words: [u64; 3],
}

/// A parked sender: who, what it sends, and the capability it grants.
#[derive(Clone, Copy)]
pub struct SendWait {
    pub pid: u32,
    pub msg: Message,
    pub grant: Option<Cap>,
}

/// A bounded FIFO queue: the first `len` items, oldest first.
#[derive(Clone, Copy)]
pub struct Queue<T> {
    pub items: [T; QUEUE_DEPTH],
    pub len: usize,
}

impl<T: Copy> Queue<T> {
    pub open spec fn view(&self) -> Seq<T> {
        self.items@.subrange(0, self.len as int)
    }

    pub open spec fn wf(&self) -> bool {
        self.len <= QUEUE_DEPTH
    }

    pub fn new(fill: T) -> (q: Self)
        ensures
            q.wf(),
            q@ == Seq::<T>::empty(),
    {
        Queue { items: [fill; QUEUE_DEPTH], len: 0 }
    }

    /// take the oldest item.
    pub fn pop_front(&mut self) -> (x: T)
        requires
            old(self).wf(),
            old(self)@.len() > 0,
        ensures
            final(self).wf(),
            x == old(self)@[0],
            final(self)@ == old(self)@.subrange(1, old(self)@.len() as int),
    {
        let x = self.items[0];
        let n = self.len;
        let mut k: usize = 0;
        while k + 1 < n
            invariant
                n == old(self).len,
                1 <= n <= QUEUE_DEPTH,
                k < n,
                self.len == n,
                forall|j: int| 0 <= j < k ==> self.items@[j] == old(self).items@[j + 1],
                forall|j: int| k <= j < QUEUE_DEPTH ==> self.items@[j] == old(self).items@[j],
            decreases n - k,
        {
            self.items[k] = self.items[k + 1];
            k += 1;
        }
        self.len = n - 1;
        assert(self@ =~= old(self)@.subrange(1, old(self)@.len() as int));
        x
    }

    /// add `x` behind every queued item.
    pub fn push_back(&mut self, x: T)
        requires
            old(self).wf(),
            old(self)@.len() < QUEUE_DEPTH,
        ensures
            final(self).wf(),
            final(self)@ == old(self)@.push(x),
    {
        let n = self.len;
        self.items[n] = x;
        self.len = n + 1;
        assert(self@ =~= old(self)@.push(x));
    }

    pub fn is_empty(&self) -> (b: bool)
        requires
            self.wf(),
        ensures
            b == (self@.len() == 0),
    {
        self.len == 0
    }

    pub fn is_full(&self) -> (b: bool)
        requires
            self.wf(),
        ensures
            b == (self@.len() >= QUEUE_DEPTH),
    {
        self.len >= QUEUE_DEPTH
    }
}

/// `q` without the senders that are `pid`, in the same order.
pub open spec fn senders_without(q: Seq<SendWait>, pid: u32) -> Seq<SendWait> {
    q.filter(|w: SendWait| w.pid != pid)
}

/// `q` without `pid`, in the same order.
pub open spec fn receivers_without(q: Seq<u32>, pid: u32) -> Seq<u32> {
    q.filter(|r: u32| r != pid)
}

impl Queue<SendWait> {
    /// drop every parked send of `pid`.
    pub fn drop_pid(&mut self, pid: u32)
        requires
            old(self).wf(),
        ensures
            final(self).wf(),
            final(self)@ == senders_without(old(self)@, pid),
    {
        let ghost q0 = self@;
        let n = self.len;
        let mut out = *self;
        out.len = 0;
        let mut i: usize = 0;
        while i < n
            invariant
                old(self).wf(),
                n == q0.len(),
                n <= QUEUE_DEPTH,
                i <= n,
                *self == *old(self),
                q0 == old(self)@,
                out.wf(),
                out.len <= i,
                out@ == senders_without(q0.subrange(0, i as int), pid),
            decreases n - i,
        {
            let w = self.items[i];
            proof {
                assert(w == q0[i as int]);
                let pre = q0.subrange(0, i as int);
                assert(q0.subrange(0, i + 1) =~= pre.push(w));
                assert(senders_without(pre.push(w), pid) == if w.pid != pid {
                    senders_without(pre, pid).push(w)
                } else {
                    senders_without(pre, pid)
                }) by {
                    reveal(Seq::filter);
                    assert(pre.push(w).drop_last() =~= pre);
                }
            }
            if w.pid != pid {
                let m = out.len;
                out.items[m] = w;
                out.len = m + 1;
                assert(out@ =~= senders_without(q0.subrange(0, i as int), pid).push(w));
            }
            i += 1;
        }
        assert(q0.subrange(0, n as int) =~= q0);
        *self = out;
    }
}

impl Queue<u32> {
    /// drop `pid` wherever it is parked.
    pub fn drop_pid(&mut self, pid: u32)
        requires
            old(self).wf(),
        ensures
            final(self).wf(),
            final(self)@ == receivers_without(old(self)@, pid),
    {
        let ghost q0 = self@;
        let n = self.len;
        let mut out = *self;
        out.len = 0;
        let mut i: usize = 0;
        while i < n
            invariant
                old(self).wf(),
                n == q0.len(),
                n <= QUEUE_DEPTH,
                i <= n,
                *self == *old(self),
                q0 == old(self)@,
                out.wf(),
                out.len <= i,
                out@ == receivers_without(q0.subrange(0, i as int), pid),
            decreases n - i,
        {
            let r = self.items[i];
            proof {
                assert(r == q0[i as int]);
                let pre = q0.subrange(0, i as int);
                assert(q0.subrange(0, i + 1) =~= pre.push(r));
                assert(receivers_without(pre.push(r), pid) == if r != pid {
                    receivers_without(pre, pid).push(r)
                } else {
                    receivers_without(pre, pid)
                }) by {
                    reveal(Seq::filter);
                    assert(pre.push(r).drop_last() =~= pre);
                }
            }
            if r != pid {
                let m = out.len;
                out.items[m] = r;
                out.len = m + 1;
                assert(out@ =~= receivers_without(q0.subrange(0, i as int), pid).push(r));
            }
            i += 1;
        }
        assert(q0.subrange(0, n as int) =~= q0);
        *self = out;
    }
}

#[derive(Clone, Copy)]
pub struct Endpoint {
    /// handed out by `alloc_endpoint`.
    pub in_use: bool,
    pub senders: Queue<SendWait>,
    pub receivers: Queue<u32>,
}

/// What an endpoint holds: whether it is allocated, the parked senders
/// and the parked receivers, oldest first.
#[verifier::ext_equal]
pub struct EpView {
    pub in_use: bool,
    pub senders: Seq<SendWait>,
    pub receivers: Seq<u32>,
}

impl EpView {
    /// not allocated, nobody parked: free to hand out.
    pub open spec fn is_free(&self) -> bool {
        !self.in_use && self.senders.len() == 0 && self.receivers.len() == 0
    }
}

impl Endpoint {
    pub open spec fn view(&self) -> EpView {
        EpView { in_use: self.in_use, senders: self.senders@, receivers: self.receivers@ }
    }

    pub open spec fn wf(&self) -> bool {
        self.senders.wf() && self.receivers.wf()
    }

    pub fn empty() -> (e: Self)
        ensures
            e.wf(),
            e@.is_free(),
    {
        let w = SendWait { pid: 0, msg: Message { label: 0, words: [0u64; 3] }, grant: None };
        Endpoint { in_use: false, senders: Queue::new(w), receivers: Queue::new(0u32) }
    }
}

/// A notification object: the pending signal bits and the one task that
/// may be parked waiting for them.
#[derive(Clone, Copy)]
pub struct Notification {
    pub in_use: bool,
    pub bits: u64,
    pub waiter: Option<u32>,
}

impl Notification {
    pub fn empty() -> (n: Self)
        ensures
            !n.in_use && n.bits == 0 && n.waiter is None,
    {
        Notification { in_use: false, bits: 0, waiter: None }
    }
}

#[derive(Clone, Copy, Debug, PartialEq, Eq, Structural)]
pub enum IpcError {
    /// the capability used does not name an object of the right kind.
    BadCap,
    BadEndpoint,
    BadNotification,
    /// the wait queue in this direction is full (or, for a notification,
    /// another task already waits).
    Busy,
}

#[derive(Clone, Copy, Debug, PartialEq, Eq, Structural)]
pub enum SendOutcome {
    /// a parked receiver took the message; the sender gets 0 in a0.
    Delivered,
    /// the sender was parked; the receiver that takes its message writes
    /// its a0.
    Parked,
}

#[derive(Clone, Copy)]
pub enum RecvOutcome {
    /// the oldest parked sender's message and granted capability.
    Got(Message, Option<Cap>),
    /// the receiver was parked; the sender that serves it writes a0..a3.
    Parked,
}

#[derive(Clone, Copy, PartialEq, Eq, Structural, Debug)]
pub enum WaitOutcome {
    /// the pending bits, now cleared.
    Got(u64),
    /// the waiter was parked; the signal that wakes it writes a0.
    Parked,
}

/// The kernel's endpoint and notification pools.
pub struct EndpointTable {
    pub eps: [Endpoint; MAX_ENDPOINTS],
    pub notifs: [Notification; MAX_NOTIFS],
}

impl EndpointTable {
    pub open spec fn view(&self) -> Seq<EpView> {
        Seq::new(MAX_ENDPOINTS as nat, |i: int| self.eps@[i]@)
    }

    /// the notification objects.
    pub open spec fn nview(&self) -> Seq<Notification> {
        self.notifs@
    }

    pub open spec fn wf(&self) -> bool {
        forall|i: int| 0 <= i < MAX_ENDPOINTS ==> (#[trigger] self.eps@[i]).wf()
    }

    pub fn new() -> (t: Self)
        ensures
            t.wf(),
            forall|i: int| 0 <= i < MAX_ENDPOINTS ==> (#[trigger] t@[i]).is_free(),
            forall|i: int|
                0 <= i < MAX_NOTIFS ==> !(#[trigger] t.nview()[i]).in_use && t.nview()[i].bits == 0
                    && t.nview()[i].waiter is None,
    {
        EndpointTable { eps: [Endpoint::empty(); MAX_ENDPOINTS], notifs: [Notification::empty(); MAX_NOTIFS] }
    }

    /// hand out the first free endpoint and mark it in use.
    pub fn alloc_endpoint(&mut self) -> (r: Option<EndpointId>)
        requires
            old(self).wf(),
        ensures
            final(self).wf(),
            final(self).nview() == old(self).nview(),
            alloc_result(*old(self), *final(self), r),
    {
        let mut i: usize = 0;
        while i < MAX_ENDPOINTS
            invariant
                i <= MAX_ENDPOINTS,
                old(self).wf(),
                *self == *old(self),
                forall|j: int| 0 <= j < i ==> !(#[trigger] self@[j]).is_free(),
            decreases MAX_ENDPOINTS - i,
        {
            let ep = self.eps[i];
            assert(ep.wf());
            if !ep.in_use && ep.senders.is_empty() && ep.receivers.is_empty() {
                let mut e = ep;
                e.in_use = true;
                assert(e.wf());
                self.eps[i] = e;
                assert(self.wf()) by {
                    assert forall|j: int| 0 <= j < MAX_ENDPOINTS implies (#[trigger] self.eps@[j]).wf() by {
                        if j != i {
                            assert(self.eps@[j] == old(self).eps@[j]);
                        }
                    }
                }
                assert(self@ =~= old(self)@.update(i as int, EpView { in_use: true, ..old(self)@[i as int] }));
                return Some(i as EndpointId);
            }
            i += 1;
        }
        assert(self@ =~= old(self)@);
        None
    }

    /// hand out the first notification not in use and mark it in use.
    pub fn alloc_notification(&mut self) -> (r: Option<NotifId>)
        ensures
            final(self).eps == old(self).eps,
            match r {
                Some(i) => i < MAX_NOTIFS && !old(self).nview()[i as int].in_use && (forall|j: int|
                    0 <= j < i ==> (#[trigger] old(self).nview()[j]).in_use) && final(self).nview()
                    == old(self).nview().update(
                    i as int,
                    Notification { in_use: true, ..old(self).nview()[i as int] },
                ),
                None => (forall|j: int| 0 <= j < MAX_NOTIFS ==> (#[trigger] old(self).nview()[j]).in_use)
                    && final(self).nview() == old(self).nview(),
            },
    {
        let mut i: usize = 0;
        while i < MAX_NOTIFS
            invariant
                i <= MAX_NOTIFS,
                self.eps == old(self).eps,
                self.notifs == old(self).notifs,
                forall|j: int| 0 <= j < i ==> (#[trigger] self.nview()[j]).in_use,
            decreases MAX_NOTIFS - i,
        {
            let n = self.notifs[i];
            if !n.in_use {
                let mut m = n;
                m.in_use = true;
                self.notifs[i] = m;
                return Some(i as NotifId);
            }
            i += 1;
        }
        None
    }

    /// forget every wait that task `pid` registered, so an exited task
    /// never stays behind as a phantom waiter.
    pub fn drop_waiters(&mut self, pid: u32)
        requires
            old(self).wf(),
        ensures
            final(self).wf(),
            forall|i: int|
                0 <= i < MAX_ENDPOINTS ==> #[trigger] final(self)@[i] == dropped(old(self)@[i], pid),
            forall|i: int|
                0 <= i < MAX_NOTIFS ==> #[trigger] final(self).nview()[i] == notif_dropped(
                    old(self).nview()[i],
                    pid,
                ),
    {
        let mut i: usize = 0;
        while i < MAX_ENDPOINTS
            invariant
                i <= MAX_ENDPOINTS,
                old(self).wf(),
                self.wf(),
                self.notifs == old(self).notifs,
                forall|j: int| 0 <= j < i ==> #[trigger] self@[j] == dropped(old(self)@[j], pid),
                forall|j: int| i <= j < MAX_ENDPOINTS ==> #[trigger] self.eps@[j] == old(self).eps@[j],
            decreases MAX_ENDPOINTS - i,
        {
            let mut ep = self.eps[i];
            assert(ep.wf());
            ep.senders.drop_pid(pid);
            ep.receivers.drop_pid(pid);
            assert(ep@ =~= dropped(old(self)@[i as int], pid));
            let ghost before = *self;
            self.eps[i] = ep;
            assert(self.wf()) by {
                assert forall|j: int| 0 <= j < MAX_ENDPOINTS implies (#[trigger] self.eps@[j]).wf() by {
                    if j != i {
                        assert(self.eps@[j] == before.eps@[j]);
                    }
                }
            }
            assert forall|j: int| 0 <= j <= i implies #[trigger] self@[j] == dropped(old(self)@[j], pid) by {
                if j < i {
                    assert(self.eps@[j] == before.eps@[j]);
                    assert(before@[j] == dropped(old(self)@[j], pid));
                }
            }
            assert forall|j: int| i < j < MAX_ENDPOINTS implies #[trigger] self.eps@[j] == old(self).eps@[j] by {
                assert(self.eps@[j] == before.eps@[j]);
            }
            i += 1;
        }
        let mut k: usize = 0;
        while k < MAX_NOTIFS
            invariant
                k <= MAX_NOTIFS,
                old(self).wf(),
                self.wf(),
                forall|j: int| 0 <= j < MAX_ENDPOINTS ==> #[trigger] self@[j] == dropped(old(self)@[j], pid),
                forall|j: int| 0 <= j < k ==> #[trigger] self.nview()[j] == notif_dropped(old(self).nview()[j], pid),
                forall|j: int| k <= j < MAX_NOTIFS ==> #[trigger] self.nview()[j] == old(self).nview()[j],
            decreases MAX_NOTIFS - k,
        {
            assert(self.nview()[k as int] == old(self).nview()[k as int]);
            let mut n = self.notifs[k];
            if let Some(p) = n.waiter {
                if p == pid {
                    n.waiter = None;
                }
            }
            assert(n == notif_dropped(old(self).nview()[k as int], pid));
            let ghost before = *self;
            self.notifs[k] = n;
            assert(self@ =~= before@);
            assert forall|j: int| 0 <= j < MAX_NOTIFS && j != k implies #[trigger] self.nview()[j] == before.nview()[j] by {}
            assert(self.nview()[k as int] == n);
            k += 1;
        }
    }
}

/// `e` with the waits of `pid` removed (a dropped sender takes its
/// message with it).
pub open spec fn dropped(e: EpView, pid: u32) -> EpView {
    EpView {
        senders: senders_without(e.senders, pid),
        receivers: receivers_without(e.receivers, pid),
        ..e
    }
}

/// `n` with `pid` no longer registered as its waiter.
pub open spec fn notif_dropped(n: Notification, pid: u32) -> Notification {
    if n.waiter == Some(pid) {
        Notification { waiter: None, ..n }
    } else {
        n
    }
}

/// task `p` (a pid) exists and is parked in state `st`.
pub open spec fn parked_in(s: Scheduler, p: u32, st: State) -> bool {
    1 <= p <= MAX_PROCS && s.procs@[p - 1].state == st
}

/// The queues of one endpoint are well shaped: at most one direction has
/// parked tasks, and no task is parked twice.
pub open spec fn ep_shape(v: EpView) -> bool {
    &&& v.senders.len() == 0 || v.receivers.len() == 0
    &&& v.senders.len() <= QUEUE_DEPTH && v.receivers.len() <= QUEUE_DEPTH
    &&& forall|k: int, l: int|
        0 <= k < l < v.senders.len() ==> #[trigger] v.senders[k].pid != #[trigger] v.senders[l].pid
    &&& forall|k: int, l: int|
        0 <= k < l < v.receivers.len() ==> #[trigger] v.receivers[k] != #[trigger] v.receivers[l]
}

/// The coupling between the pools and the process table: every parked
/// sender, receiver or notification waiter is a task blocked on exactly
/// that object in that way, and every task blocked on an object is parked
/// there.
pub open spec fn ipc_inv(t: EndpointTable, s: Scheduler) -> bool {
    &&& s.wf()
    &&& t.wf()
    &&& forall|e: int| 0 <= e < MAX_ENDPOINTS ==> ep_shape(#[trigger] t@[e])
    &&& forall|e: int, k: int|
        0 <= e < MAX_ENDPOINTS && 0 <= k < t@[e].senders.len() ==> parked_in(
            s,
            (#[trigger] t@[e].senders[k]).pid,
            State::BlockedOnSend(e as EndpointId),
        )
    &&& forall|e: int, k: int|
        0 <= e < MAX_ENDPOINTS && 0 <= k < t@[e].receivers.len() ==> parked_in(
            s,
            #[trigger] t@[e].receivers[k],
            State::BlockedOnRecv(e as EndpointId),
        )
    &&& forall|i: int|
        0 <= i < MAX_PROCS && (#[trigger] s.procs@[i]).state.sending_on() is Some ==> {
            let e = s.procs@[i].state.sending_on().unwrap() as int;
            e < MAX_ENDPOINTS && exists|k: int|
                0 <= k < t@[e].senders.len() && (#[trigger] t@[e].senders[k]).pid == i + 1
        }
    &&& forall|i: int|
        0 <= i < MAX_PROCS && (#[trigger] s.procs@[i]).state.receiving_on() is Some ==> {
            let e = s.procs@[i].state.receiving_on().unwrap() as int;
            e < MAX_ENDPOINTS && exists|k: int|
                0 <= k < t@[e].receivers.len() && #[trigger] t@[e].receivers[k] == i + 1
        }
    &&& forall|n: int|
        0 <= n < MAX_NOTIFS && (#[trigger] t.nview()[n]).waiter is Some ==> parked_in(
            s,
            t.nview()[n].waiter.unwrap(),
            State::BlockedOnNotif(n as NotifId),
        )
    &&& forall|i: int|
        0 <= i < MAX_PROCS && (#[trigger] s.procs@[i]).state.notified_by() is Some ==> {
            let n = s.procs@[i].state.notified_by().unwrap() as int;
            n < MAX_NOTIFS && t.nview()[n].waiter == Some((i + 1) as u32)
        }
}

/// a send on `ep_id` would park the caller.
pub open spec fn send_would_park(t: EndpointTable, ep_id: EndpointId) -> bool {
    ep_id < MAX_ENDPOINTS && t@[ep_id as int].receivers.len() == 0 && t@[ep_id as int].senders.len()
        < QUEUE_DEPTH
}

/// a receive on `ep_id` would park the caller.
pub open spec fn recv_would_park(t: EndpointTable, ep_id: EndpointId) -> bool {
    ep_id < MAX_ENDPOINTS && t@[ep_id as int].senders.len() == 0 && t@[ep_id as int].receivers.len()
        < QUEUE_DEPTH
}

/// a wait on notification `n` would park the caller.
pub open spec fn wait_would_park(t: EndpointTable, n: NotifId) -> bool {
    n < MAX_NOTIFS && t.nview()[n as int].bits == 0 && t.nview()[n as int].waiter is None
}

/// What `send` does, by the state of the endpoint: reject an id outside
/// the pool; hand the message (and grant) to the oldest parked receiver;
/// refuse when the sender queue is full; otherwise park the current task
/// at the back of the sender queue with its message and grant.
pub open spec fn sent(
    t0: EndpointTable,
    s0: Scheduler,
    ep_id: EndpointId,
    msg: Message,
    grant: Option<Cap>,
    t1: EndpointTable,
    s1: Scheduler,
    r: Result<SendOutcome, IpcError>,
    d: Option<Dispatch>,
) -> bool {
    &&& t1.nview() == t0.nview()
    &&& if ep_id >= MAX_ENDPOINTS {
        r == Err::<SendOutcome, IpcError>(IpcError::BadEndpoint) && d is None && t1@ == t0@ && s1 == s0
    } else {
        let e = t0@[ep_id as int];
        if e.receivers.len() > 0 {
            &&& r == Ok::<SendOutcome, IpcError>(SendOutcome::Delivered)
            &&& d is None
            &&& t1@ == t0@.update(
                ep_id as int,
                EpView { receivers: e.receivers.subrange(1, e.receivers.len() as int), ..e },
            )
            &&& delivered(s0, s1, e.receivers[0], msg, grant)
        } else if e.senders.len() >= QUEUE_DEPTH {
            r == Err::<SendOutcome, IpcError>(IpcError::Busy) && d is None && t1@ == t0@ && s1 == s0
        } else {
            let me = s0.procs@[s0.current as int].pid;
            &&& r == Ok::<SendOutcome, IpcError>(SendOutcome::Parked)
            &&& t1@ == t0@.update(
                ep_id as int,
                EpView { senders: e.senders.push(SendWait { pid: me, msg, grant }), ..e },
            )
            &&& d is Some
            &&& blocked(s0, s1, State::BlockedOnSend(ep_id), d.unwrap())
        }
    }
}

/// What `recv` does, by the state of the endpoint: reject an id outside
/// the pool; take the oldest parked sender's message and grant and wake
/// that sender with status 0; refuse when the receiver queue is full;
/// otherwise park the current task at the back of the receiver queue.
pub open spec fn received(
    t0: EndpointTable,
    s0: Scheduler,
    ep_id: EndpointId,
    t1: EndpointTable,
    s1: Scheduler,
    r: Result<RecvOutcome, IpcError>,
    d: Option<Dispatch>,
) -> bool {
    &&& t1.nview() == t0.nview()
    &&& if ep_id >= MAX_ENDPOINTS {
        r == Err::<RecvOutcome, IpcError>(IpcError::BadEndpoint) && d is None && t1@ == t0@ && s1 == s0
    } else {
        let e = t0@[ep_id as int];
        if e.senders.len() > 0 {
            let w = e.senders[0];
            &&& r == Ok::<RecvOutcome, IpcError>(RecvOutcome::Got(w.msg, w.grant))
            &&& d is None
            &&& t1@ == t0@.update(
                ep_id as int,
                EpView { senders: e.senders.subrange(1, e.senders.len() as int), ..e },
            )
            &&& woken(s0, s1, w.pid, 0)
        } else if e.receivers.len() >= QUEUE_DEPTH {
            r == Err::<RecvOutcome, IpcError>(IpcError::Busy) && d is None && t1@ == t0@ && s1 == s0
        } else {
            let me = s0.procs@[s0.current as int].pid;
            &&& r == Ok::<RecvOutcome, IpcError>(RecvOutcome::Parked)
            &&& t1@ == t0@.update(ep_id as int, EpView { receivers: e.receivers.push(me), ..e })
            &&& d is Some
            &&& blocked(s0, s1, State::BlockedOnRecv(ep_id), d.unwrap())
        }
    }
}

/// What `signal` does: reject an id outside the pool; OR `bits` into the
/// set; if a task waits and the set is then non-empty, wake it with the
/// whole set in a0 and clear the set.
pub open spec fn signalled(
    t0: EndpointTable,
    s0: Scheduler,
    n: NotifId,
    bits: u64,
    t1: EndpointTable,
    s1: Scheduler,
    r: Result<(), IpcError>,
) -> bool {
    &&& t1@ == t0@
    &&& if n >= MAX_NOTIFS {
        r == Err::<(), IpcError>(IpcError::BadNotification) && t1.nview() == t0.nview() && s1 == s0
    } else {
        let o = t0.nview()[n as int];
        let set = o.bits | bits;
        &&& r == Ok::<(), IpcError>(())
        &&& if o.waiter is Some && set != 0 {
            &&& t1.nview() == t0.nview().update(n as int, Notification { bits: 0, waiter: None, ..o })
            &&& woken(s0, s1, o.waiter.unwrap(), set)
        } else {
            t1.nview() == t0.nview().update(n as int, Notification { bits: set, ..o }) && s1 == s0
        }
    }
}

/// What `wait` does: reject an id outside the pool; take and clear a
/// non-empty set; refuse when another task already waits; otherwise park
/// the current task as the waiter.
pub open spec fn waited(
    t0: EndpointTable,
    s0: Scheduler,
    n: NotifId,
    t1: EndpointTable,
    s1: Scheduler,
    r: Result<WaitOutcome, IpcError>,
    d: Option<Dispatch>,
) -> bool {
    &&& t1@ == t0@
    &&& if n >= MAX_NOTIFS {
        r == Err::<WaitOutcome, IpcError>(IpcError::BadNotification) && d is None && t1.nview()
            == t0.nview() && s1 == s0
    } else {
        let o = t0.nview()[n as int];
        if o.bits != 0 {
            &&& r == Ok::<WaitOutcome, IpcError>(WaitOutcome::Got(o.bits))
            &&& d is None
            &&& t1.nview() == t0.nview().update(n as int, Notification { bits: 0, ..o })
            &&& s1 == s0
        } else if o.waiter is Some {
            r == Err::<WaitOutcome, IpcError>(IpcError::Busy) && d is None && t1.nview() == t0.nview()
                && s1 == s0
        } else {
            let me = s0.procs@[s0.current as int].pid;
            &&& r == Ok::<WaitOutcome, IpcError>(WaitOutcome::Parked)
            &&& t1.nview() == t0.nview().update(n as int, Notification { waiter: Some(me), ..o })
            &&& d is Some
            &&& blocked(s0, s1, State::BlockedOnNotif(n), d.unwrap())
        }
    }
}


/// The coupling survives taking the oldest parked sender of endpoint `e`
/// off its queue and making that task ready.
proof fn lemma_inv_after_pop_sender(t0: EndpointTable, s0: Scheduler, t1: EndpointTable, s1: Scheduler, e: int)
    requires
        ipc_inv(t0, s0),
        0 <= e < MAX_ENDPOINTS,
        t0@[e].senders.len() > 0,
        t1.wf(),
        t1.nview() == t0.nview(),
        t1@ == t0@.update(e, EpView { senders: t0@[e].senders.subrange(1, t0@[e].senders.len() as int), ..t0@[e] }),
        s1.wf(),
        s1.procs@[t0@[e].senders[0].pid - 1].state == State::Ready,
        forall|i: int|
            0 <= i < MAX_PROCS && i != t0@[e].senders[0].pid - 1 ==> #[trigger] s1.procs@[i].state
                == s0.procs@[i].state,
    ensures
        ipc_inv(t1, s1),
{
    let q0 = t0@[e].senders;
    let x = q0[0].pid;
    assert(ep_shape(t0@[e]));
    assert(parked_in(s0, x, State::BlockedOnSend(e as EndpointId)));
    assert forall|e2: int| 0 <= e2 < MAX_ENDPOINTS implies ep_shape(#[trigger] t1@[e2]) by {
        if e2 == e {
            let q1 = t1@[e].senders;
            assert forall|k: int, l: int| 0 <= k < l < q1.len() implies #[trigger] q1[k].pid != #[trigger] q1[l].pid by {
                assert(q1[k] == q0[k + 1] && q1[l] == q0[l + 1]);
                assert(q0[k + 1].pid != q0[l + 1].pid);
            }
        }
    }
    assert forall|e2: int, k: int|
        0 <= e2 < MAX_ENDPOINTS && 0 <= k < t1@[e2].senders.len() implies parked_in(
        s1,
        (#[trigger] t1@[e2].senders[k]).pid,
        State::BlockedOnSend(e2 as EndpointId),
    ) by {
        if e2 == e {
            assert(t1@[e].senders[k] == t0@[e].senders[k + 1]);
            assert(t0@[e].senders[0].pid != t0@[e].senders[k + 1].pid);
            assert(parked_in(s0, t0@[e].senders[k + 1].pid, State::BlockedOnSend(e as EndpointId)));
        } else {
            assert(t1@[e2].senders[k] == t0@[e2].senders[k]);
            assert(parked_in(s0, t0@[e2].senders[k].pid, State::BlockedOnSend(e2 as EndpointId)));
        }
    }
    assert forall|e2: int, k: int|
        0 <= e2 < MAX_ENDPOINTS && 0 <= k < t1@[e2].receivers.len() implies parked_in(
        s1,
        #[trigger] t1@[e2].receivers[k],
        State::BlockedOnRecv(e2 as EndpointId),
    ) by {
        assert(t1@[e2].receivers[k] == t0@[e2].receivers[k]);
        assert(parked_in(s0, t0@[e2].receivers[k], State::BlockedOnRecv(e2 as EndpointId)));
    }
    assert forall|i: int|
        0 <= i < MAX_PROCS && (#[trigger] s1.procs@[i]).state.sending_on() is Some implies {
            let e2 = s1.procs@[i].state.sending_on().unwrap() as int;
            e2 < MAX_ENDPOINTS && exists|k: int|
                0 <= k < t1@[e2].senders.len() && (#[trigger] t1@[e2].senders[k]).pid == i + 1
        } by {
        assert(s0.procs@[i].state == s1.procs@[i].state);
        let e2 = s1.procs@[i].state.sending_on().unwrap() as int;
        assert(s0.procs@[i].state.sending_on() is Some);
        let k = choose|k: int| 0 <= k < t0@[e2].senders.len() && (#[trigger] t0@[e2].senders[k]).pid == i + 1;
        if e2 == e {
            assert(k != 0);
            assert(t1@[e2].senders[k - 1] == t0@[e2].senders[k]);
        } else {
            assert(t1@[e2].senders[k] == t0@[e2].senders[k]);
        }
    }
    assert forall|i: int|
        0 <= i < MAX_PROCS && (#[trigger] s1.procs@[i]).state.receiving_on() is Some implies {
            let e2 = s1.procs@[i].state.receiving_on().unwrap() as int;
            e2 < MAX_ENDPOINTS && exists|k: int|
                0 <= k < t1@[e2].receivers.len() && #[trigger] t1@[e2].receivers[k] == i + 1
        } by {
        assert(s0.procs@[i].state == s1.procs@[i].state);
        let e2 = s1.procs@[i].state.receiving_on().unwrap() as int;
        assert(s0.procs@[i].state.receiving_on() is Some);
        let k = choose|k: int| 0 <= k < t0@[e2].receivers.len() && #[trigger] t0@[e2].receivers[k] == i + 1;
        assert(t1@[e2].receivers[k] == t0@[e2].receivers[k]);
    }
    assert forall|n: int|
        0 <= n < MAX_NOTIFS && (#[trigger] t1.nview()[n]).waiter is Some implies parked_in(
        s1,
        t1.nview()[n].waiter.unwrap(),
        State::BlockedOnNotif(n as NotifId),
    ) by {
        assert(parked_in(s0, t0.nview()[n].waiter.unwrap(), State::BlockedOnNotif(n as NotifId)));
    }
    assert forall|i: int|
        0 <= i < MAX_PROCS && (#[trigger] s1.procs@[i]).state.notified_by() is Some implies {
            let n = s1.procs@[i].state.notified_by().unwrap() as int;
            n < MAX_NOTIFS && t1.nview()[n].waiter == Some((i + 1) as u32)
        } by {
        assert(s0.procs@[i].state == s1.procs@[i].state);
    }
}

/// The coupling survives taking the oldest parked receiver of endpoint `e`
/// off its queue and making that task ready.
proof fn lemma_inv_after_pop_receiver(t0: EndpointTable, s0: Scheduler, t1: EndpointTable, s1: Scheduler, e: int)
    requires
        ipc_inv(t0, s0),
        0 <= e < MAX_ENDPOINTS,
        t0@[e].receivers.len() > 0,
        t1.wf(),
        t1.nview() == t0.nview(),
        t1@ == t0@.update(e, EpView { receivers: t0@[e].receivers.subrange(1, t0@[e].receivers.len() as int), ..t0@[e] }),
        s1.wf(),
        s1.procs@[t0@[e].receivers[0] - 1].state == State::Ready,
        forall|i: int|
            0 <= i < MAX_PROCS && i != t0@[e].receivers[0] - 1 ==> #[trigger] s1.procs@[i].state
                == s0.procs@[i].state,
    ensures
        ipc_inv(t1, s1),
{
    let q0 = t0@[e].receivers;
    let x = q0[0];
    assert(ep_shape(t0@[e]));
    assert(parked_in(s0, x, State::BlockedOnRecv(e as EndpointId)));
    assert forall|e2: int| 0 <= e2 < MAX_ENDPOINTS implies ep_shape(#[trigger] t1@[e2]) by {
        if e2 == e {
            let q1 = t1@[e].receivers;
            assert forall|k: int, l: int| 0 <= k < l < q1.len() implies #[trigger] q1[k] != #[trigger] q1[l] by {
                assert(q1[k] == q0[k + 1] && q1[l] == q0[l + 1]);
                assert(q0[k + 1] != q0[l + 1]);
            }
        }
    }
    assert forall|e2: int, k: int|
        0 <= e2 < MAX_ENDPOINTS && 0 <= k < t1@[e2].senders.len() implies parked_in(
        s1,
        (#[trigger] t1@[e2].senders[k]).pid,
        State::BlockedOnSend(e2 as EndpointId),
    ) by {
        assert(t1@[e2].senders[k] == t0@[e2].senders[k]);
        assert(parked_in(s0, t0@[e2].senders[k].pid, State::BlockedOnSend(e2 as EndpointId)));
    }
    assert forall|e2: int, k: int|
        0 <= e2 < MAX_ENDPOINTS && 0 <= k < t1@[e2].receivers.len() implies parked_in(
        s1,
        #[trigger] t1@[e2].receivers[k],
        State::BlockedOnRecv(e2 as EndpointId),
    ) by {
        if e2 == e {
            assert(t1@[e].receivers[k] == t0@[e].receivers[k + 1]);
            assert(t0@[e].receivers[0] != t0@[e].receivers[k + 1]);
            assert(parked_in(s0, t0@[e].receivers[k + 1], State::BlockedOnRecv(e as EndpointId)));
        } else {
            assert(t1@[e2].receivers[k] == t0@[e2].receivers[k]);
            assert(parked_in(s0, t0@[e2].receivers[k], State::BlockedOnRecv(e2 as EndpointId)));
        }
    }
    assert forall|i: int|
        0 <= i < MAX_PROCS && (#[trigger] s1.procs@[i]).state.sending_on() is Some implies {
            let e2 = s1.procs@[i].state.sending_on().unwrap() as int;
            e2 < MAX_ENDPOINTS && exists|k: int|
                0 <= k < t1@[e2].senders.len() && (#[trigger] t1@[e2].senders[k]).pid == i + 1
        } by {
        assert(s0.procs@[i].state == s1.procs@[i].state);
        let e2 = s1.procs@[i].state.sending_on().unwrap() as int;
        assert(s0.procs@[i].state.sending_on() is Some);
        let k = choose|k: int| 0 <= k < t0@[e2].senders.len() && (#[trigger] t0@[e2].senders[k]).pid == i + 1;
        assert(t1@[e2].senders[k] == t0@[e2].senders[k]);
    }
    assert forall|i: int|
        0 <= i < MAX_PROCS && (#[trigger] s1.procs@[i]).state.receiving_on() is Some implies {
            let e2 = s1.procs@[i].state.receiving_on().unwrap() as int;
            e2 < MAX_ENDPOINTS && exists|k: int|
                0 <= k < t1@[e2].receivers.len() && #[trigger] t1@[e2].receivers[k] == i + 1
        } by {
        assert(s0.procs@[i].state == s1.procs@[i].state);
        let e2 = s1.procs@[i].state.receiving_on().unwrap() as int;
        assert(s0.procs@[i].state.receiving_on() is Some);
        let k = choose|k: int| 0 <= k < t0@[e2].receivers.len() && #[trigger] t0@[e2].receivers[k] == i + 1;
        if e2 == e {
            assert(k != 0);
            assert(t1@[e2].receivers[k - 1] == t0@[e2].receivers[k]);
        } else {
            assert(t1@[e2].receivers[k] == t0@[e2].receivers[k]);
        }
    }
    assert forall|n: int|
        0 <= n < MAX_NOTIFS && (#[trigger] t1.nview()[n]).waiter is Some implies parked_in(
        s1,
        t1.nview()[n].waiter.unwrap(),
        State::BlockedOnNotif(n as NotifId),
    ) by {
        assert(parked_in(s0, t0.nview()[n].waiter.unwrap(), State::BlockedOnNotif(n as NotifId)));
    }
    assert forall|i: int|
        0 <= i < MAX_PROCS && (#[trigger] s1.procs@[i]).state.notified_by() is Some implies {
            let n = s1.procs@[i].state.notified_by().unwrap() as int;
            n < MAX_NOTIFS && t1.nview()[n].waiter == Some((i + 1) as u32)
        } by {
        assert(s0.procs@[i].state == s1.procs@[i].state);
    }
}

/// The coupling survives parking the current task at the back of the
/// sender queue of endpoint `e` and handing the cpu on.
proof fn lemma_inv_after_park_sender(
    t0: EndpointTable,
    s0: Scheduler,
    t1: EndpointTable,
    s1: Scheduler,
    e: int,
    x: SendWait,
    d: Dispatch,
)
    requires
        ipc_inv(t0, s0),
        0 <= e < MAX_ENDPOINTS,
        s0.current < MAX_PROCS,
        x.pid == s0.procs@[s0.current as int].pid,
        t0@[e].receivers.len() == 0,
        t0@[e].senders.len() < QUEUE_DEPTH,
        t1.wf(),
        t1.nview() == t0.nview(),
        t1@ == t0@.update(e, EpView { senders: t0@[e].senders.push(x), ..t0@[e] }),
        blocked(s0, s1, State::BlockedOnSend(e as EndpointId), d),
        d != Dispatch::Halt,
    ensures
        ipc_inv(t1, s1),
{
    let cur = s0.current as int;
    let mid = s0.procs@.update(cur, crate::sched::with_state(s0.procs@[cur], State::BlockedOnSend(e as EndpointId)));
    let next = crate::sched::pick_next_spec(mid, cur);
    crate::sched::lemma_pick_next_ready(mid, cur);
    assert(s0.procs@[cur].pid == cur + 1);
    assert(next != cur);
    let q0 = t0@[e].senders;
    let q1 = t1@[e].senders;
    assert(ep_shape(t0@[e]));
    assert(forall|i: int| 0 <= i < MAX_PROCS && i != cur && i != next ==> #[trigger] s1.procs@[i].state == s0.procs@[i].state);
    assert(s1.procs@[cur].state == State::BlockedOnSend(e as EndpointId));
    assert forall|k: int| 0 <= k < q0.len() implies #[trigger] q0[k].pid != cur + 1 && q0[k].pid != next + 1 by {
        assert(parked_in(s0, q0[k].pid, State::BlockedOnSend(e as EndpointId)));
    }
    assert forall|e2: int| 0 <= e2 < MAX_ENDPOINTS implies ep_shape(#[trigger] t1@[e2]) by {
        if e2 == e {
            assert forall|k: int, l: int| 0 <= k < l < q1.len() implies #[trigger] q1[k].pid != #[trigger] q1[l].pid by {
                if l == q0.len() {
                    assert(q1[k] == q0[k]);
                } else {
                    assert(q1[k] == q0[k] && q1[l] == q0[l]);
                }
            }
        }
    }
    assert forall|e2: int, k: int|
        0 <= e2 < MAX_ENDPOINTS && 0 <= k < t1@[e2].senders.len() implies parked_in(
        s1,
        (#[trigger] t1@[e2].senders[k]).pid,
        State::BlockedOnSend(e2 as EndpointId),
    ) by {
        if !(e2 == e && k == q0.len()) {
            assert(t1@[e2].senders[k] == t0@[e2].senders[k]);
            let p = t0@[e2].senders[k].pid;
            assert(parked_in(s0, p, State::BlockedOnSend(e2 as EndpointId)));
            assert(p - 1 != cur && p - 1 != next);
        }
    }
    assert forall|e2: int, k: int|
        0 <= e2 < MAX_ENDPOINTS && 0 <= k < t1@[e2].receivers.len() implies parked_in(
        s1,
        #[trigger] t1@[e2].receivers[k],
        State::BlockedOnRecv(e2 as EndpointId),
    ) by {
        assert(t1@[e2].receivers[k] == t0@[e2].receivers[k]);
        let p = t0@[e2].receivers[k];
        assert(parked_in(s0, p, State::BlockedOnRecv(e2 as EndpointId)));
        assert(p - 1 != cur && p - 1 != next);
    }
    assert forall|i: int|
        0 <= i < MAX_PROCS && (#[trigger] s1.procs@[i]).state.sending_on() is Some implies {
            let e2 = s1.procs@[i].state.sending_on().unwrap() as int;
            e2 < MAX_ENDPOINTS && exists|k: int|
                0 <= k < t1@[e2].senders.len() && (#[trigger] t1@[e2].senders[k]).pid == i + 1
        } by {
        if i == cur {
            assert(s1.procs@[i].state.sending_on().unwrap() as int == e);
            assert(t1@[e].senders[q0.len() as int].pid == i + 1);
        } else {
            assert(s0.procs@[i].state == s1.procs@[i].state);
            let e2 = s1.procs@[i].state.sending_on().unwrap() as int;
            assert(s0.procs@[i].state.sending_on() is Some);
            let k = choose|k: int| 0 <= k < t0@[e2].senders.len() && (#[trigger] t0@[e2].senders[k]).pid == i + 1;
            assert(t1@[e2].senders[k] == t0@[e2].senders[k]);
        }
    }
    assert forall|i: int|
        0 <= i < MAX_PROCS && (#[trigger] s1.procs@[i]).state.receiving_on() is Some implies {
            let e2 = s1.procs@[i].state.receiving_on().unwrap() as int;
            e2 < MAX_ENDPOINTS && exists|k: int|
                0 <= k < t1@[e2].receivers.len() && #[trigger] t1@[e2].receivers[k] == i + 1
        } by {
        assert(i != cur);
        assert(s0.procs@[i].state == s1.procs@[i].state);
        let e2 = s1.procs@[i].state.receiving_on().unwrap() as int;
        assert(s0.procs@[i].state.receiving_on() is Some);
        let k = choose|k: int| 0 <= k < t0@[e2].receivers.len() && #[trigger] t0@[e2].receivers[k] == i + 1;
        assert(t1@[e2].receivers[k] == t0@[e2].receivers[k]);
    }
    assert forall|n: int|
        0 <= n < MAX_NOTIFS && (#[trigger] t1.nview()[n]).waiter is Some implies parked_in(
        s1,
        t1.nview()[n].waiter.unwrap(),
        State::BlockedOnNotif(n as NotifId),
    ) by {
        let p = t0.nview()[n].waiter.unwrap();
        assert(parked_in(s0, p, State::BlockedOnNotif(n as NotifId)));
        assert(p - 1 != cur && p - 1 != next);
    }
    assert forall|i: int|
        0 <= i < MAX_PROCS && (#[trigger] s1.procs@[i]).state.notified_by() is Some implies {
            let n = s1.procs@[i].state.notified_by().unwrap() as int;
            n < MAX_NOTIFS && t1.nview()[n].waiter == Some((i + 1) as u32)
        } by {
        assert(s0.procs@[i].state == s1.procs@[i].state);
    }
}

/// The coupling survives parking the current task at the back of the
/// receiver queue of endpoint `e` and handing the cpu on.
proof fn lemma_inv_after_park_receiver(
    t0: EndpointTable,
    s0: Scheduler,
    t1: EndpointTable,
    s1: Scheduler,
    e: int,
    x: u32,
    d: Dispatch,
)
    requires
        ipc_inv(t0, s0),
        0 <= e < MAX_ENDPOINTS,
        s0.current < MAX_PROCS,
        x == s0.procs@[s0.current as int].pid,
        t0@[e].senders.len() == 0,
        t0@[e].receivers.len() < QUEUE_DEPTH,
        t1.wf(),
        t1.nview() == t0.nview(),
        t1@ == t0@.update(e, EpView { receivers: t0@[e].receivers.push(x), ..t0@[e] }),
        blocked(s0, s1, State::BlockedOnRecv(e as EndpointId), d),
        d != Dispatch::Halt,
    ensures
        ipc_inv(t1, s1),
{
    let cur = s0.current as int;
    let mid = s0.procs@.update(cur, crate::sched::with_state(s0.procs@[cur], State::BlockedOnRecv(e as EndpointId)));
    let next = crate::sched::pick_next_spec(mid, cur);
    crate::sched::lemma_pick_next_ready(mid, cur);
    assert(s0.procs@[cur].pid == cur + 1);
    assert(next != cur);
    let q0 = t0@[e].receivers;
    let q1 = t1@[e].receivers;
    assert(ep_shape(t0@[e]));
    assert(forall|i: int| 0 <= i < MAX_PROCS && i != cur && i != next ==> #[trigger] s1.procs@[i].state == s0.procs@[i].state);
    assert(s1.procs@[cur].state == State::BlockedOnRecv(e as EndpointId));
    assert forall|k: int| 0 <= k < q0.len() implies #[trigger] q0[k] != cur + 1 && q0[k] != next + 1 by {
        assert(parked_in(s0, q0[k], State::BlockedOnRecv(e as EndpointId)));
    }
    assert forall|e2: int| 0 <= e2 < MAX_ENDPOINTS implies ep_shape(#[trigger] t1@[e2]) by {
        if e2 == e {
            assert forall|k: int, l: int| 0 <= k < l < q1.len() implies #[trigger] q1[k] != #[trigger] q1[l] by {
                if l == q0.len() {
                    assert(q1[k] == q0[k]);
                } else {
                    assert(q1[k] == q0[k] && q1[l] == q0[l]);
                }
            }
        }
    }
    assert forall|e2: int, k: int|
        0 <= e2 < MAX_ENDPOINTS && 0 <= k < t1@[e2].senders.len() implies parked_in(
        s1,
        (#[trigger] t1@[e2].senders[k]).pid,
        State::BlockedOnSend(e2 as EndpointId),
    ) by {
        assert(t1@[e2].senders[k] == t0@[e2].senders[k]);
        let p = t0@[e2].senders[k].pid;
        assert(parked_in(s0, p, State::BlockedOnSend(e2 as EndpointId)));
        assert(p - 1 != cur && p - 1 != next);
    }
    assert forall|e2: int, k: int|
        0 <= e2 < MAX_ENDPOINTS && 0 <= k < t1@[e2].receivers.len() implies parked_in(
        s1,
        #[trigger] t1@[e2].receivers[k],
        State::BlockedOnRecv(e2 as EndpointId),
    ) by {
        if !(e2 == e && k == q0.len()) {
            assert(t1@[e2].receivers[k] == t0@[e2].receivers[k]);
            let p = t0@[e2].receivers[k];
            assert(parked_in(s0, p, State::BlockedOnRecv(e2 as EndpointId)));
            assert(p - 1 != cur && p - 1 != next);
        }
    }
    assert forall|i: int|
        0 <= i < MAX_PROCS && (#[trigger] s1.procs@[i]).state.sending_on() is Some implies {
            let e2 = s1.procs@[i].state.sending_on().unwrap() as int;
            e2 < MAX_ENDPOINTS && exists|k: int|
                0 <= k < t1@[e2].senders.len() && (#[trigger] t1@[e2].senders[k]).pid == i + 1
        } by {
        assert(i != cur);
        assert(s0.procs@[i].state == s1.procs@[i].state);
        let e2 = s1.procs@[i].state.sending_on().unwrap() as int;
        assert(s0.procs@[i].state.sending_on() is Some);
        let k = choose|k: int| 0 <= k < t0@[e2].senders.len() && (#[trigger] t0@[e2].senders[k]).pid == i + 1;
        assert(t1@[e2].senders[k] == t0@[e2].senders[k]);
    }
    assert forall|i: int|
        0 <= i < MAX_PROCS && (#[trigger] s1.procs@[i]).state.receiving_on() is Some implies {
            let e2 = s1.procs@[i].state.receiving_on().unwrap() as int;
            e2 < MAX_ENDPOINTS && exists|k: int|
                0 <= k < t1@[e2].receivers.len() && #[trigger] t1@[e2].receivers[k] == i + 1
        } by {
        if i == cur {
            assert(s1.procs@[i].state.receiving_on().unwrap() as int == e);
            assert(t1@[e].receivers[q0.len() as int] == i + 1);
        } else {
            assert(s0.procs@[i].state == s1.procs@[i].state);
            let e2 = s1.procs@[i].state.receiving_on().unwrap() as int;
            assert(s0.procs@[i].state.receiving_on() is Some);
            let k = choose|k: int| 0 <= k < t0@[e2].receivers.len() && #[trigger] t0@[e2].receivers[k] == i + 1;
            assert(t1@[e2].receivers[k] == t0@[e2].receivers[k]);
        }
    }
    assert forall|n: int|
        0 <= n < MAX_NOTIFS && (#[trigger] t1.nview()[n]).waiter is Some implies parked_in(
        s1,
        t1.nview()[n].waiter.unwrap(),
        State::BlockedOnNotif(n as NotifId),
    ) by {
        let p = t0.nview()[n].waiter.unwrap();
        assert(parked_in(s0, p, State::BlockedOnNotif(n as NotifId)));
        assert(p - 1 != cur && p - 1 != next);
    }
    assert forall|i: int|
        0 <= i < MAX_PROCS && (#[trigger] s1.procs@[i]).state.notified_by() is Some implies {
            let n = s1.procs@[i].state.notified_by().unwrap() as int;
            n < MAX_NOTIFS && t1.nview()[n].waiter == Some((i + 1) as u32)
        } by {
        assert(s0.procs@[i].state == s1.procs@[i].state);
    }
}

/// Send on endpoint `ep_id` from the current task. With a receiver
/// parked, the oldest one gets the message (and grant) in its frame and
/// wakes; otherwise the sender parks behind any senders already queued.
pub fn send(
    table: &mut EndpointTable,
    sched: &mut Scheduler,
    ep_id: EndpointId,
    msg: Message,
    grant: Option<Cap>,
) -> (r: (Result<SendOutcome, IpcError>, Option<Dispatch>))
    requires
        ipc_inv(*old(table), *old(sched)),
        send_would_park(*old(table), ep_id) ==> old(sched).current < MAX_PROCS,
    ensures
        sent(*old(table), *old(sched), ep_id, msg, grant, *final(table), *final(sched), r.0, r.1),
        frames_kept(*old(sched), *final(sched)),
        r.1 != Some(Dispatch::Halt) ==> ipc_inv(*final(table), *final(sched)),
{
    if ep_id as usize >= MAX_ENDPOINTS {
        return (Err(IpcError::BadEndpoint), None);
    }
    let idx = ep_id as usize;
    let mut ep = table.eps[idx];
    assert(ep.wf());
    if !ep.receivers.is_empty() {
        let rcv = ep.receivers.pop_front();
        table.eps[idx] = ep;
        proof {
            assert(table@ =~= old(table)@.update(
                idx as int,
                EpView {
                    receivers: old(table)@[idx as int].receivers.subrange(
                        1,
                        old(table)@[idx as int].receivers.len() as int,
                    ),
                    ..old(table)@[idx as int]
                },
            ));
            assert(parked_in(*old(sched), rcv, State::BlockedOnRecv(ep_id)));
        }
        sched.deliver_to(rcv, msg, grant);
        proof {
            lemma_inv_after_pop_receiver(*old(table), *old(sched), *table, *sched, idx as int);
        }
        return (Ok(SendOutcome::Delivered), None);
    }
    if ep.senders.is_full() {
        return (Err(IpcError::Busy), None);
    }
    let me = sched.current_pid();
    let w = SendWait { pid: me, msg, grant };
    ep.senders.push_back(w);
    table.eps[idx] = ep;
    proof {
        assert(table@ =~= old(table)@.update(
            idx as int,
            EpView { senders: old(table)@[idx as int].senders.push(w), ..old(table)@[idx as int] },
        ));
    }
    let d = sched.block_on_send(ep_id);
    proof {
        if d != Dispatch::Halt {
            lemma_inv_after_park_sender(*old(table), *old(sched), *table, *sched, idx as int, w, d);
        }
    }
    (Ok(SendOutcome::Parked), Some(d))
}

/// Receive on endpoint `ep_id` for the current task. With a sender
/// parked, the oldest one's message and grant are returned and that
/// sender wakes with status 0; otherwise the receiver parks behind any
/// receivers already queued.
pub fn recv(table: &mut EndpointTable, sched: &mut Scheduler, ep_id: EndpointId) -> (r: (
    Result<RecvOutcome, IpcError>,
    Option<Dispatch>,
))
    requires
        ipc_inv(*old(table), *old(sched)),
        recv_would_park(*old(table), ep_id) ==> old(sched).current < MAX_PROCS,
    ensures
        received(*old(table), *old(sched), ep_id, *final(table), *final(sched), r.0, r.1),
        frames_kept(*old(sched), *final(sched)),
        r.1 != Some(Dispatch::Halt) ==> ipc_inv(*final(table), *final(sched)),
{
    if ep_id as usize >= MAX_ENDPOINTS {
        return (Err(IpcError::BadEndpoint), None);
    }
    let idx = ep_id as usize;
    let mut ep = table.eps[idx];
    assert(ep.wf());
    if !ep.senders.is_empty() {
        let w = ep.senders.pop_front();
        table.eps[idx] = ep;
        proof {
            assert(table@ =~= old(table)@.update(
                idx as int,
                EpView {
                    senders: old(table)@[idx as int].senders.subrange(
                        1,
                        old(table)@[idx as int].senders.len() as int,
                    ),
                    ..old(table)@[idx as int]
                },
            ));
            assert(parked_in(*old(sched), w.pid, State::BlockedOnSend(ep_id)));
        }
        sched.wake_with_status(w.pid, 0);
        proof {
            lemma_inv_after_pop_sender(*old(table), *old(sched), *table, *sched, idx as int);
        }
        return (Ok(RecvOutcome::Got(w.msg, w.grant)), None);
    }
    if ep.receivers.is_full() {
        return (Err(IpcError::Busy), None);
    }
    let me = sched.current_pid();
    ep.receivers.push_back(me);
    table.eps[idx] = ep;
    proof {
        assert(table@ =~= old(table)@.update(
            idx as int,
            EpView { receivers: old(table)@[idx as int].receivers.push(me), ..old(table)@[idx as int] },
        ));
    }
    let d = sched.block_on_recv(ep_id);
    proof {
        if d != Dispatch::Halt {
            lemma_inv_after_park_receiver(*old(table), *old(sched), *table, *sched, idx as int, me, d);
        }
    }
    (Ok(RecvOutcome::Parked), Some(d))
}

/// OR `bits` into notification `n`, waking its waiter with the whole set
/// when there is one and the set is non-empty.
pub fn signal(table: &mut EndpointTable, sched: &mut Scheduler, n: NotifId, bits: u64) -> (r: Result<
    (),
    IpcError,
>)
    requires
        ipc_inv(*old(table), *old(sched)),
    ensures
        signalled(*old(table), *old(sched), n, bits, *final(table), *final(sched), r),
        frames_kept(*old(sched), *final(sched)),
        ipc_inv(*final(table), *final(sched)),
{
    if n as usize >= MAX_NOTIFS {
        return Err(IpcError::BadNotification);
    }
    let idx = n as usize;
    let mut o = table.notifs[idx];
    let set = o.bits | bits;
    if set != 0 && o.waiter.is_some() {
        let w = o.waiter.unwrap();
        o.bits = 0;
        o.waiter = None;
        table.notifs[idx] = o;
        proof {
            assert(table@ =~= old(table)@);
            assert(table.nview() =~= old(table).nview().update(
                idx as int,
                Notification { bits: 0, waiter: None, ..old(table).nview()[idx as int] },
            ));
            assert(parked_in(*old(sched), w, State::BlockedOnNotif(n)));
        }
        sched.wake_with_status(w, set);
        proof {
            lemma_inv_after_notif_wake(*old(table), *old(sched), *table, *sched, idx as int);
        }
    } else {
        o.bits = set;
        table.notifs[idx] = o;
        proof {
            assert(table@ =~= old(table)@);
            assert(table.nview() =~= old(table).nview().update(
                idx as int,
                Notification { bits: set, ..old(table).nview()[idx as int] },
            ));
            assert forall|m: int|
                0 <= m < MAX_NOTIFS && (#[trigger] table.nview()[m]).waiter is Some implies parked_in(
                *sched,
                table.nview()[m].waiter.unwrap(),
                State::BlockedOnNotif(m as NotifId),
            ) by {
                assert(old(table).nview()[m].waiter == table.nview()[m].waiter);
            }
            assert forall|i: int|
                0 <= i < MAX_PROCS && (#[trigger] sched.procs@[i]).state.notified_by() is Some implies {
                    let m = sched.procs@[i].state.notified_by().unwrap() as int;
                    m < MAX_NOTIFS && table.nview()[m].waiter == Some((i + 1) as u32)
                } by {
                let m = sched.procs@[i].state.notified_by().unwrap() as int;
                assert(old(table).nview()[m].waiter == table.nview()[m].waiter);
            }
        }
    }
    Ok(())
}

/// Take the pending bits of notification `n` for the current task, or
/// park it as the waiter while there are none.
pub fn wait(table: &mut EndpointTable, sched: &mut Scheduler, n: NotifId) -> (r: (
    Result<WaitOutcome, IpcError>,
    Option<Dispatch>,
))
    requires
        ipc_inv(*old(table), *old(sched)),
        wait_would_park(*old(table), n) ==> old(sched).current < MAX_PROCS,
    ensures
        waited(*old(table), *old(sched), n, *final(table), *final(sched), r.0, r.1),
        frames_kept(*old(sched), *final(sched)),
        r.1 != Some(Dispatch::Halt) ==> ipc_inv(*final(table), *final(sched)),
{
    if n as usize >= MAX_NOTIFS {
        return (Err(IpcError::BadNotification), None);
    }
    let idx = n as usize;
    let mut o = table.notifs[idx];
    if o.bits != 0 {
        let b = o.bits;
        o.bits = 0;
        table.notifs[idx] = o;
        proof {
            assert(table@ =~= old(table)@);
            assert forall|m: int|
                0 <= m < MAX_NOTIFS && (#[trigger] table.nview()[m]).waiter is Some implies parked_in(
                *sched,
                table.nview()[m].waiter.unwrap(),
                State::BlockedOnNotif(m as NotifId),
            ) by {
                assert(old(table).nview()[m].waiter == table.nview()[m].waiter);
            }
        }
        return (Ok(WaitOutcome::Got(b)), None);
    }
    if o.waiter.is_some() {
        return (Err(IpcError::Busy), None);
    }
    let me = sched.current_pid();
    o.waiter = Some(me);
    table.notifs[idx] = o;
    assert(table@ =~= old(table)@);
    let d = sched.block_on_notif(n);
    proof {
        if d != Dispatch::Halt {
            lemma_inv_after_notif_park(*old(table), *old(sched), *table, *sched, idx as int, d);
        }
    }
    (Ok(WaitOutcome::Parked), Some(d))
}

/// The coupling survives clearing the waiter of notification `n` and
/// making that task ready.
proof fn lemma_inv_after_notif_wake(t0: EndpointTable, s0: Scheduler, t1: EndpointTable, s1: Scheduler, n: int)
    requires
        ipc_inv(t0, s0),
        0 <= n < MAX_NOTIFS,
        t0.nview()[n].waiter is Some,
        t1.wf(),
        t1@ == t0@,
        t1.nview() == t0.nview().update(n, Notification { waiter: None, bits: t1.nview()[n].bits, ..t0.nview()[n] }),
        s1.wf(),
        s1.procs@[t0.nview()[n].waiter.unwrap() - 1].state == State::Ready,
        forall|i: int|
            0 <= i < MAX_PROCS && i != t0.nview()[n].waiter.unwrap() - 1 ==> #[trigger] s1.procs@[i].state
                == s0.procs@[i].state,
    ensures
        ipc_inv(t1, s1),
{
    let w = t0.nview()[n].waiter.unwrap();
    assert(parked_in(s0, w, State::BlockedOnNotif(n as NotifId)));
    assert forall|e2: int, k: int|
        0 <= e2 < MAX_ENDPOINTS && 0 <= k < t1@[e2].senders.len() implies parked_in(
        s1,
        (#[trigger] t1@[e2].senders[k]).pid,
        State::BlockedOnSend(e2 as EndpointId),
    ) by {
        assert(parked_in(s0, t0@[e2].senders[k].pid, State::BlockedOnSend(e2 as EndpointId)));
    }
    assert forall|e2: int, k: int|
        0 <= e2 < MAX_ENDPOINTS && 0 <= k < t1@[e2].receivers.len() implies parked_in(
        s1,
        #[trigger] t1@[e2].receivers[k],
        State::BlockedOnRecv(e2 as EndpointId),
    ) by {
        assert(parked_in(s0, t0@[e2].receivers[k], State::BlockedOnRecv(e2 as EndpointId)));
    }
    assert forall|i: int|
        0 <= i < MAX_PROCS && (#[trigger] s1.procs@[i]).state.sending_on() is Some implies {
            let e2 = s1.procs@[i].state.sending_on().unwrap() as int;
            e2 < MAX_ENDPOINTS && exists|k: int|
                0 <= k < t1@[e2].senders.len() && (#[trigger] t1@[e2].senders[k]).pid == i + 1
        } by {
        assert(s0.procs@[i].state == s1.procs@[i].state);
        assert(s0.procs@[i].state.sending_on() is Some);
    }
    assert forall|i: int|
        0 <= i < MAX_PROCS && (#[trigger] s1.procs@[i]).state.receiving_on() is Some implies {
            let e2 = s1.procs@[i].state.receiving_on().unwrap() as int;
            e2 < MAX_ENDPOINTS && exists|k: int|
                0 <= k < t1@[e2].receivers.len() && #[trigger] t1@[e2].receivers[k] == i + 1
        } by {
        assert(s0.procs@[i].state == s1.procs@[i].state);
        assert(s0.procs@[i].state.receiving_on() is Some);
    }
    assert forall|m: int|
        0 <= m < MAX_NOTIFS && (#[trigger] t1.nview()[m]).waiter is Some implies parked_in(
        s1,
        t1.nview()[m].waiter.unwrap(),
        State::BlockedOnNotif(m as NotifId),
    ) by {
        assert(m != n);
        assert(parked_in(s0, t0.nview()[m].waiter.unwrap(), State::BlockedOnNotif(m as NotifId)));
    }
    assert forall|i: int|
        0 <= i < MAX_PROCS && (#[trigger] s1.procs@[i]).state.notified_by() is Some implies {
            let m = s1.procs@[i].state.notified_by().unwrap() as int;
            m < MAX_NOTIFS && t1.nview()[m].waiter == Some((i + 1) as u32)
        } by {
        assert(s0.procs@[i].state == s1.procs@[i].state);
        assert(s0.procs@[i].state.notified_by() is Some);
    }
}

/// The coupling survives registering the current task as the waiter of
/// notification `n` and handing the cpu on.
proof fn lemma_inv_after_notif_park(t0: EndpointTable, s0: Scheduler, t1: EndpointTable, s1: Scheduler, n: int, d: Dispatch)
    requires
        ipc_inv(t0, s0),
        0 <= n < MAX_NOTIFS,
        s0.current < MAX_PROCS,
        t0.nview()[n].waiter is None,
        t1.wf(),
        t1@ == t0@,
        t1.nview() == t0.nview().update(
            n,
            Notification { waiter: Some(s0.procs@[s0.current as int].pid), ..t0.nview()[n] },
        ),
        blocked(s0, s1, State::BlockedOnNotif(n as NotifId), d),
        d != Dispatch::Halt,
    ensures
        ipc_inv(t1, s1),
{
    let cur = s0.current as int;
    let mid = s0.procs@.update(cur, crate::sched::with_state(s0.procs@[cur], State::BlockedOnNotif(n as NotifId)));
    let next = crate::sched::pick_next_spec(mid, cur);
    crate::sched::lemma_pick_next_ready(mid, cur);
    assert(s0.procs@[cur].pid == cur + 1);
    assert(next != cur);
    assert(forall|i: int| 0 <= i < MAX_PROCS && i != cur && i != next ==> #[trigger] s1.procs@[i].state == s0.procs@[i].state);
    assert forall|e2: int, k: int|
        0 <= e2 < MAX_ENDPOINTS && 0 <= k < t1@[e2].senders.len() implies parked_in(
        s1,
        (#[trigger] t1@[e2].senders[k]).pid,
        State::BlockedOnSend(e2 as EndpointId),
    ) by {
        let p = t0@[e2].senders[k].pid;
        assert(parked_in(s0, p, State::BlockedOnSend(e2 as EndpointId)));
        assert(p - 1 != cur && p - 1 != next);
    }
    assert forall|e2: int, k: int|
        0 <= e2 < MAX_ENDPOINTS && 0 <= k < t1@[e2].receivers.len() implies parked_in(
        s1,
        #[trigger] t1@[e2].receivers[k],
        State::BlockedOnRecv(e2 as EndpointId),
    ) by {
        let p = t0@[e2].receivers[k];
        assert(parked_in(s0, p, State::BlockedOnRecv(e2 as EndpointId)));
        assert(p - 1 != cur && p - 1 != next);
    }
    assert forall|i: int|
        0 <= i < MAX_PROCS && (#[trigger] s1.procs@[i]).state.sending_on() is Some implies {
            let e2 = s1.procs@[i].state.sending_on().unwrap() as int;
            e2 < MAX_ENDPOINTS && exists|k: int|
                0 <= k < t1@[e2].senders.len() && (#[trigger] t1@[e2].senders[k]).pid == i + 1
        } by {
        assert(s0.procs@[i].state == s1.procs@[i].state);
        assert(s0.procs@[i].state.sending_on() is Some);
    }
    assert forall|i: int|
        0 <= i < MAX_PROCS && (#[trigger] s1.procs@[i]).state.receiving_on() is Some implies {
            let e2 = s1.procs@[i].state.receiving_on().unwrap() as int;
            e2 < MAX_ENDPOINTS && exists|k: int|
                0 <= k < t1@[e2].receivers.len() && #[trigger] t1@[e2].receivers[k] == i + 1
        } by {
        assert(s0.procs@[i].state == s1.procs@[i].state);
        assert(s0.procs@[i].state.receiving_on() is Some);
    }
    assert forall|m: int|
        0 <= m < MAX_NOTIFS && (#[trigger] t1.nview()[m]).waiter is Some implies parked_in(
        s1,
        t1.nview()[m].waiter.unwrap(),
        State::BlockedOnNotif(m as NotifId),
    ) by {
        if m != n {
            let p = t0.nview()[m].waiter.unwrap();
            assert(parked_in(s0, p, State::BlockedOnNotif(m as NotifId)));
            assert(p - 1 != cur && p - 1 != next);
        }
    }
    assert forall|i: int|
        0 <= i < MAX_PROCS && (#[trigger] s1.procs@[i]).state.notified_by() is Some implies {
            let m = s1.procs@[i].state.notified_by().unwrap() as int;
            m < MAX_NOTIFS && t1.nview()[m].waiter == Some((i + 1) as u32)
        } by {
        if i != cur {
            assert(s0.procs@[i].state == s1.procs@[i].state);
            assert(s0.procs@[i].state.notified_by() is Some);
        }
    }
}

/// A table change that moves no task into or out of a wait keeps the
/// coupling with the pools.
pub proof fn lemma_inv_same_waits(t: EndpointTable, s0: Scheduler, s1: Scheduler)
    requires
        ipc_inv(t, s0),
        s1.wf(),
        forall|i: int|
            0 <= i < MAX_PROCS ==> (#[trigger] s1.procs@[i]).state.sending_on() == s0.procs@[i].state.sending_on()
                && s1.procs@[i].state.receiving_on() == s0.procs@[i].state.receiving_on()
                && s1.procs@[i].state.notified_by() == s0.procs@[i].state.notified_by(),
    ensures
        ipc_inv(t, s1),
{
    assert forall|e2: int, k: int|
        0 <= e2 < MAX_ENDPOINTS && 0 <= k < t@[e2].senders.len() implies parked_in(
        s1,
        (#[trigger] t@[e2].senders[k]).pid,
        State::BlockedOnSend(e2 as EndpointId),
    ) by {
        let p = t@[e2].senders[k].pid;
        assert(parked_in(s0, p, State::BlockedOnSend(e2 as EndpointId)));
        assert(s0.procs@[p - 1].state.sending_on() is Some);
        assert(s1.procs@[p - 1].state.sending_on() is Some);
    }
    assert forall|e2: int, k: int|
        0 <= e2 < MAX_ENDPOINTS && 0 <= k < t@[e2].receivers.len() implies parked_in(
        s1,
        #[trigger] t@[e2].receivers[k],
        State::BlockedOnRecv(e2 as EndpointId),
    ) by {
        let p = t@[e2].receivers[k];
        assert(parked_in(s0, p, State::BlockedOnRecv(e2 as EndpointId)));
        assert(s0.procs@[p - 1].state.receiving_on() is Some);
        assert(s1.procs@[p - 1].state.receiving_on() is Some);
    }
    assert forall|m: int|
        0 <= m < MAX_NOTIFS && (#[trigger] t.nview()[m]).waiter is Some implies parked_in(
        s1,
        t.nview()[m].waiter.unwrap(),
        State::BlockedOnNotif(m as NotifId),
    ) by {
        let p = t.nview()[m].waiter.unwrap();
        assert(parked_in(s0, p, State::BlockedOnNotif(m as NotifId)));
        assert(s0.procs@[p - 1].state.notified_by() is Some);
        assert(s1.procs@[p - 1].state.notified_by() is Some);
    }
    assert forall|i: int|
        0 <= i < MAX_PROCS && (#[trigger] s1.procs@[i]).state.sending_on() is Some implies {
            let e2 = s1.procs@[i].state.sending_on().unwrap() as int;
            e2 < MAX_ENDPOINTS && exists|k: int|
                0 <= k < t@[e2].senders.len() && (#[trigger] t@[e2].senders[k]).pid == i + 1
        } by {
        assert(s0.procs@[i].state.sending_on() is Some);
    }
    assert forall|i: int|
        0 <= i < MAX_PROCS && (#[trigger] s1.procs@[i]).state.receiving_on() is Some implies {
            let e2 = s1.procs@[i].state.receiving_on().unwrap() as int;
            e2 < MAX_ENDPOINTS && exists|k: int|
                0 <= k < t@[e2].receivers.len() && #[trigger] t@[e2].receivers[k] == i + 1
        } by {
        assert(s0.procs@[i].state.receiving_on() is Some);
    }
    assert forall|i: int|
        0 <= i < MAX_PROCS && (#[trigger] s1.procs@[i]).state.notified_by() is Some implies {
            let m = s1.procs@[i].state.notified_by().unwrap() as int;
            m < MAX_NOTIFS && t.nview()[m].waiter == Some((i + 1) as u32)
        } by {
        assert(s0.procs@[i].state.notified_by() is Some);
    }
}

/// At boot (every endpoint and notification free, every slot unused,
/// nothing running) the pools and the process table are coupled.
pub proof fn lemma_inv_at_boot(t: EndpointTable, s: Scheduler)
    requires
        t.wf(),
        forall|e: int| 0 <= e < MAX_ENDPOINTS ==> (#[trigger] t@[e]).is_free(),
        forall|n: int| 0 <= n < MAX_NOTIFS ==> (#[trigger] t.nview()[n]).waiter is None,
        forall|i: int| 0 <= i < MAX_PROCS ==> (#[trigger] s.procs@[i]).state == State::Unused,
        s.current == MAX_PROCS,
    ensures
        ipc_inv(t, s),
{
}

/// No phantom waiters: under the coupling, a task that is not blocked on
/// an endpoint or a notification (one that exited, say) is parked
/// nowhere.
pub proof fn lemma_no_phantom_waiters(t: EndpointTable, s: Scheduler, i: int)
    requires
        ipc_inv(t, s),
        0 <= i < MAX_PROCS,
        s.procs@[i].state.sending_on() is None,
        s.procs@[i].state.receiving_on() is None,
        s.procs@[i].state.notified_by() is None,
    ensures
        forall|e: int, k: int|
            0 <= e < MAX_ENDPOINTS && 0 <= k < t@[e].senders.len() ==> (#[trigger] t@[e].senders[k]).pid
                != (i + 1) as u32,
        forall|e: int, k: int|
            0 <= e < MAX_ENDPOINTS && 0 <= k < t@[e].receivers.len() ==> #[trigger] t@[e].receivers[k]
                != (i + 1) as u32,
        forall|n: int| 0 <= n < MAX_NOTIFS ==> (#[trigger] t.nview()[n]).waiter != Some((i + 1) as u32),
{
    assert forall|e: int, k: int|
        0 <= e < MAX_ENDPOINTS && 0 <= k < t@[e].senders.len() implies (#[trigger] t@[e].senders[k]).pid
        != (i + 1) as u32 by {
        assert(parked_in(s, t@[e].senders[k].pid, State::BlockedOnSend(e as EndpointId)));
    }
    assert forall|e: int, k: int|
        0 <= e < MAX_ENDPOINTS && 0 <= k < t@[e].receivers.len() implies #[trigger] t@[e].receivers[k]
        != (i + 1) as u32 by {
        assert(parked_in(s, t@[e].receivers[k], State::BlockedOnRecv(e as EndpointId)));
    }
    assert forall|n: int| 0 <= n < MAX_NOTIFS implies (#[trigger] t.nview()[n]).waiter != Some(
        (i + 1) as u32,
    ) by {
        if t.nview()[n].waiter is Some {
            assert(parked_in(s, t.nview()[n].waiter.unwrap(), State::BlockedOnNotif(n as NotifId)));
        }
    }
}

/// Rendezvous, sender first: a task that sends on an idle endpoint parks
/// with its message; the next receive on that endpoint returns exactly
/// that message and grant, wakes the sender with status 0 in a0, and
/// leaves the endpoint idle again.
pub proof fn lemma_send_then_recv(
    t0: EndpointTable,
    s0: Scheduler,
    ep_id: EndpointId,
    msg: Message,
    grant: Option<Cap>,
    t1: EndpointTable,
    s1: Scheduler,
    r1: Result<SendOutcome, IpcError>,
    d1: Option<Dispatch>,
    t2: EndpointTable,
    s2: Scheduler,
    r2: Result<RecvOutcome, IpcError>,
    d2: Option<Dispatch>,
)
    requires
        ipc_inv(t0, s0),
        ep_id < MAX_ENDPOINTS,
        t0@[ep_id as int].senders.len() == 0,
        t0@[ep_id as int].receivers.len() == 0,
        s0.current < MAX_PROCS,
        sent(t0, s0, ep_id, msg, grant, t1, s1, r1, d1),
        received(t1, s1, ep_id, t2, s2, r2, d2),
    ensures
        r1 == Ok::<SendOutcome, IpcError>(SendOutcome::Parked),
        r2 == Ok::<RecvOutcome, IpcError>(RecvOutcome::Got(msg, grant)),
        d2 is None,
        s2.procs@[s0.current as int].state == State::Ready,
        s2.kstack_frames@[s0.current as int].regs@[10] == 0,
        t2@[ep_id as int] == t0@[ep_id as int],
{
    assert(s0.procs@[s0.current as int].pid == s0.current + 1);
    assert(t1@[ep_id as int].senders[0].pid == s0.current + 1);
    assert(t2@[ep_id as int] =~= t0@[ep_id as int]);
}

/// Rendezvous, receiver first: a task that receives on an idle endpoint
/// parks; the next send on that endpoint completes at once, puts the
/// label and the three words into a0..a3 of the receiver's saved frame,
/// makes the receiver ready, and leaves the endpoint idle again.
pub proof fn lemma_recv_then_send(
    t0: EndpointTable,
    s0: Scheduler,
    ep_id: EndpointId,
    msg: Message,
    grant: Option<Cap>,
    t1: EndpointTable,
    s1: Scheduler,
    r1: Result<RecvOutcome, IpcError>,
    d1: Option<Dispatch>,
    t2: EndpointTable,
    s2: Scheduler,
    r2: Result<SendOutcome, IpcError>,
    d2: Option<Dispatch>,
)
    requires
        ipc_inv(t0, s0),
        ep_id < MAX_ENDPOINTS,
        t0@[ep_id as int].senders.len() == 0,
        t0@[ep_id as int].receivers.len() == 0,
        s0.current < MAX_PROCS,
        received(t0, s0, ep_id, t1, s1, r1, d1),
        sent(t1, s1, ep_id, msg, grant, t2, s2, r2, d2),
    ensures
        r1 == Ok::<RecvOutcome, IpcError>(RecvOutcome::Parked),
        r2 == Ok::<SendOutcome, IpcError>(SendOutcome::Delivered),
        d2 is None,
        s2.procs@[s0.current as int].state == State::Ready,
        s2.kstack_frames@[s0.current as int].regs@[10] == msg.label,
        s2.kstack_frames@[s0.current as int].regs@[11] == msg.words@[0],
        s2.kstack_frames@[s0.current as int].regs@[12] == msg.words@[1],
        s2.kstack_frames@[s0.current as int].regs@[13] == msg.words@[2],
        t2@[ep_id as int] == t0@[ep_id as int],
{
    assert(s0.procs@[s0.current as int].pid == s0.current + 1);
    assert(t1@[ep_id as int].receivers[0] == s0.current + 1);
    assert(t2@[ep_id as int] =~= t0@[ep_id as int]);
}

/// A sender on an endpoint where other senders already wait (and the
/// queue has room) parks behind them: its message goes to the back of the
/// queue and the ones ahead of it keep their places.
pub proof fn lemma_sender_parks_behind(
    t0: EndpointTable,
    s0: Scheduler,
    ep_id: EndpointId,
    msg: Message,
    grant: Option<Cap>,
    t1: EndpointTable,
    s1: Scheduler,
    r: Result<SendOutcome, IpcError>,
    d: Option<Dispatch>,
)
    requires
        ep_id < MAX_ENDPOINTS,
        t0@[ep_id as int].receivers.len() == 0,
        t0@[ep_id as int].senders.len() < QUEUE_DEPTH,
        sent(t0, s0, ep_id, msg, grant, t1, s1, r, d),
    ensures
        r == Ok::<SendOutcome, IpcError>(SendOutcome::Parked),
        t1@[ep_id as int].senders.len() == t0@[ep_id as int].senders.len() + 1,
        t1@[ep_id as int].senders.subrange(0, t0@[ep_id as int].senders.len() as int)
            == t0@[ep_id as int].senders,
        t1@[ep_id as int].senders.last() == (SendWait {
            pid: s0.procs@[s0.current as int].pid,
            msg,
            grant,
        }),
{
    assert(t1@[ep_id as int].senders.subrange(0, t0@[ep_id as int].senders.len() as int)
        =~= t0@[ep_id as int].senders);
}

/// Producer order: with senders `w1` then `w2` at the front of an
/// endpoint's queue, two receives on it (whatever the scheduler did in
/// between) get `w1`'s message and then `w2`'s.
pub proof fn lemma_receivers_get_producer_order(
    t0: EndpointTable,
    s0: Scheduler,
    ep_id: EndpointId,
    t1: EndpointTable,
    s1: Scheduler,
    r1: Result<RecvOutcome, IpcError>,
    d1: Option<Dispatch>,
    s1b: Scheduler,
    t2: EndpointTable,
    s2: Scheduler,
    r2: Result<RecvOutcome, IpcError>,
    d2: Option<Dispatch>,
)
    requires
        ep_id < MAX_ENDPOINTS,
        t0@[ep_id as int].senders.len() >= 2,
        received(t0, s0, ep_id, t1, s1, r1, d1),
        received(t1, s1b, ep_id, t2, s2, r2, d2),
    ensures
        r1 == Ok::<RecvOutcome, IpcError>(
            RecvOutcome::Got(t0@[ep_id as int].senders[0].msg, t0@[ep_id as int].senders[0].grant),
        ),
        r2 == Ok::<RecvOutcome, IpcError>(
            RecvOutcome::Got(t0@[ep_id as int].senders[1].msg, t0@[ep_id as int].senders[1].grant),
        ),
        t2@[ep_id as int].senders == t0@[ep_id as int].senders.subrange(2, t0@[ep_id as int].senders.len() as int),
{
    assert(t1@[ep_id as int].senders[0] == t0@[ep_id as int].senders[1]);
    assert(t2@[ep_id as int].senders =~= t0@[ep_id as int].senders.subrange(2, t0@[ep_id as int].senders.len() as int));
}

/// A send on an endpoint whose sender queue is full (and with no
/// receiver) is turned away with `Busy`, and nothing changes.
pub proof fn lemma_full_sender_queue_busy(
    t0: EndpointTable,
    s0: Scheduler,
    ep_id: EndpointId,
    msg: Message,
    grant: Option<Cap>,
    t1: EndpointTable,
    s1: Scheduler,
    r: Result<SendOutcome, IpcError>,
    d: Option<Dispatch>,
)
    requires
        ep_id < MAX_ENDPOINTS,
        t0@[ep_id as int].receivers.len() == 0,
        t0@[ep_id as int].senders.len() == QUEUE_DEPTH,
        sent(t0, s0, ep_id, msg, grant, t1, s1, r, d),
    ensures
        r == Err::<SendOutcome, IpcError>(IpcError::Busy),
        d is None,
        t1@ == t0@,
        s1 == s0,
{
}

/// Every send keeps the shape of every endpoint (one direction parked at
/// most, queues within their depth): on each path, parked or not.
pub proof fn lemma_send_keeps_shape(
    t0: EndpointTable,
    s0: Scheduler,
    ep_id: EndpointId,
    msg: Message,
    grant: Option<Cap>,
    t1: EndpointTable,
    s1: Scheduler,
    r: Result<SendOutcome, IpcError>,
    d: Option<Dispatch>,
)
    requires
        forall|e: int|
            0 <= e < MAX_ENDPOINTS ==> (#[trigger] t0@[e]).senders.len() == 0 || t0@[e].receivers.len() == 0,
        forall|e: int|
            0 <= e < MAX_ENDPOINTS ==> (#[trigger] t0@[e]).senders.len() <= QUEUE_DEPTH && t0@[e].receivers.len()
                <= QUEUE_DEPTH,
        sent(t0, s0, ep_id, msg, grant, t1, s1, r, d),
    ensures
        forall|e: int|
            0 <= e < MAX_ENDPOINTS ==> (#[trigger] t1@[e]).senders.len() == 0 || t1@[e].receivers.len() == 0,
        forall|e: int|
            0 <= e < MAX_ENDPOINTS ==> (#[trigger] t1@[e]).senders.len() <= QUEUE_DEPTH && t1@[e].receivers.len()
                <= QUEUE_DEPTH,
{
    assert forall|e: int| 0 <= e < MAX_ENDPOINTS implies (#[trigger] t1@[e]).senders.len() == 0
        || t1@[e].receivers.len() == 0 by {
        assert(t0@[e].senders.len() == 0 || t0@[e].receivers.len() == 0);
    }
    assert forall|e: int| 0 <= e < MAX_ENDPOINTS implies (#[trigger] t1@[e]).senders.len() <= QUEUE_DEPTH
        && t1@[e].receivers.len() <= QUEUE_DEPTH by {
        assert(t0@[e].senders.len() <= QUEUE_DEPTH && t0@[e].receivers.len() <= QUEUE_DEPTH);
    }
}

/// Every receive keeps the shape of every endpoint, parked or not.
pub proof fn lemma_recv_keeps_shape(
    t0: EndpointTable,
    s0: Scheduler,
    ep_id: EndpointId,
    t1: EndpointTable,
    s1: Scheduler,
    r: Result<RecvOutcome, IpcError>,
    d: Option<Dispatch>,
)
    requires
        forall|e: int|
            0 <= e < MAX_ENDPOINTS ==> (#[trigger] t0@[e]).senders.len() == 0 || t0@[e].receivers.len() == 0,
        forall|e: int|
            0 <= e < MAX_ENDPOINTS ==> (#[trigger] t0@[e]).senders.len() <= QUEUE_DEPTH && t0@[e].receivers.len()
                <= QUEUE_DEPTH,
        received(t0, s0, ep_id, t1, s1, r, d),
    ensures
        forall|e: int|
            0 <= e < MAX_ENDPOINTS ==> (#[trigger] t1@[e]).senders.len() == 0 || t1@[e].receivers.len() == 0,
        forall|e: int|
            0 <= e < MAX_ENDPOINTS ==> (#[trigger] t1@[e]).senders.len() <= QUEUE_DEPTH && t1@[e].receivers.len()
                <= QUEUE_DEPTH,
{
    assert forall|e: int| 0 <= e < MAX_ENDPOINTS implies (#[trigger] t1@[e]).senders.len() == 0
        || t1@[e].receivers.len() == 0 by {
        assert(t0@[e].senders.len() == 0 || t0@[e].receivers.len() == 0);
    }
    assert forall|e: int| 0 <= e < MAX_ENDPOINTS implies (#[trigger] t1@[e]).senders.len() <= QUEUE_DEPTH
        && t1@[e].receivers.len() <= QUEUE_DEPTH by {
        assert(t0@[e].senders.len() <= QUEUE_DEPTH && t0@[e].receivers.len() <= QUEUE_DEPTH);
    }
}

/// On a fresh pool the first two allocations hand out endpoints 0 and 1.
pub proof fn lemma_alloc_twice_from_fresh(
    t0: EndpointTable,
    t1: EndpointTable,
    r1: Option<EndpointId>,
    t2: EndpointTable,
    r2: Option<EndpointId>,
)
    requires
        forall|i: int| 0 <= i < MAX_ENDPOINTS ==> (#[trigger] t0@[i]).is_free(),
        alloc_result(t0, t1, r1),
        alloc_result(t1, t2, r2),
    ensures
        r1 == Some(0u8),
        r2 == Some(1u8),
{
    assert(t0@[0].is_free());
    assert(t1@[1].is_free());
}

/// What `alloc_endpoint` gives back and leaves, from the pool `t0`.
pub open spec fn alloc_result(t0: EndpointTable, t1: EndpointTable, r: Option<EndpointId>) -> bool {
    match r {
        Some(i) => i < MAX_ENDPOINTS && t0@[i as int].is_free() && (forall|j: int|
            0 <= j < i ==> !(#[trigger] t0@[j]).is_free()) && t1@ == t0@.update(
            i as int,
            EpView { in_use: true, ..t0@[i as int] },
        ),
        None => (forall|j: int| 0 <= j < MAX_ENDPOINTS ==> !(#[trigger] t0@[j]).is_free()) && t1@ == t0@,
    }
}

/// The sender queue of endpoint `e` in `t1` begins with the whole sender
/// queue of `t0`: nothing queued there was taken out or moved.
pub open spec fn sender_queue_kept(t0: EndpointTable, t1: EndpointTable, e: int) -> bool {
    &&& t0@[e].senders.len() <= t1@[e].senders.len()
    &&& t1@[e].senders.subrange(0, t0@[e].senders.len() as int) == t0@[e].senders
}

/// Keeping a sender queue composes over a run of operations.
pub proof fn lemma_sender_queue_kept_compose(t0: EndpointTable, t1: EndpointTable, t2: EndpointTable, e: int)
    requires
        sender_queue_kept(t0, t1, e),
        sender_queue_kept(t1, t2, e),
    ensures
        sender_queue_kept(t0, t2, e),
{
    let n0 = t0@[e].senders.len() as int;
    let n1 = t1@[e].senders.len() as int;
    assert(t2@[e].senders.subrange(0, n0) =~= t2@[e].senders.subrange(0, n1).subrange(0, n0));
}

/// Every send keeps every sender queue (it only ever appends to one).
pub proof fn lemma_send_keeps_sender_queues(
    t0: EndpointTable,
    s0: Scheduler,
    ep_id: EndpointId,
    msg: Message,
    grant: Option<Cap>,
    t1: EndpointTable,
    s1: Scheduler,
    r: Result<SendOutcome, IpcError>,
    d: Option<Dispatch>,
)
    requires
        sent(t0, s0, ep_id, msg, grant, t1, s1, r, d),
    ensures
        forall|e: int| 0 <= e < MAX_ENDPOINTS ==> sender_queue_kept(t0, t1, e),
{
    assert forall|e: int| 0 <= e < MAX_ENDPOINTS implies sender_queue_kept(t0, t1, e) by {
        assert(t1@[e].senders.subrange(0, t0@[e].senders.len() as int) =~= t0@[e].senders);
    }
}

/// A receive keeps the sender queue of every other endpoint, and of its
/// own endpoint when no sender waits there.
pub proof fn lemma_recv_keeps_other_sender_queues(
    t0: EndpointTable,
    s0: Scheduler,
    ep_id: EndpointId,
    t1: EndpointTable,
    s1: Scheduler,
    r: Result<RecvOutcome, IpcError>,
    d: Option<Dispatch>,
)
    requires
        received(t0, s0, ep_id, t1, s1, r, d),
    ensures
        forall|e: int|
            0 <= e < MAX_ENDPOINTS && (e != ep_id || t0@[e].senders.len() == 0) ==> sender_queue_kept(t0, t1, e),
{
    assert forall|e: int|
        0 <= e < MAX_ENDPOINTS && (e != ep_id || t0@[e].senders.len() == 0) implies sender_queue_kept(t0, t1, e) by {
        assert(t1@[e].senders.subrange(0, t0@[e].senders.len() as int) =~= t0@[e].senders);
    }
}

/// Signals and waits leave every endpoint as it is.
pub proof fn lemma_notifications_keep_endpoints(
    t0: EndpointTable,
    s0: Scheduler,
    n: NotifId,
    bits: u64,
    t1: EndpointTable,
    s1: Scheduler,
    r1: Result<(), IpcError>,
    s2: Scheduler,
    t2: EndpointTable,
    s3: Scheduler,
    r2: Result<WaitOutcome, IpcError>,
    d2: Option<Dispatch>,
)
    requires
        signalled(t0, s0, n, bits, t1, s1, r1),
        waited(t0, s2, n, t2, s3, r2, d2),
    ensures
        forall|e: int| 0 <= e < MAX_ENDPOINTS ==> sender_queue_kept(t0, t1, e) && sender_queue_kept(t0, t2, e),
{
    assert forall|e: int| 0 <= e < MAX_ENDPOINTS implies sender_queue_kept(t0, t1, e) && sender_queue_kept(t0, t2, e) by {
        assert(t0@[e].senders.subrange(0, t0@[e].senders.len() as int) =~= t0@[e].senders);
    }
}

/// Producer order across other work: with senders `w1` then `w2` at the
/// front of an endpoint's queue, the first receive on that endpoint after
/// any run of operations that kept its sender queue gets `w1`'s message,
/// and the next receive on it after another such run gets `w2`'s.
pub proof fn lemma_producer_order_across(
    t0: EndpointTable,
    ep_id: EndpointId,
    ta: EndpointTable,
    sa: Scheduler,
    tb: EndpointTable,
    sb: Scheduler,
    r1: Result<RecvOutcome, IpcError>,
    d1: Option<Dispatch>,
    tc: EndpointTable,
    sc: Scheduler,
    td: EndpointTable,
    sd: Scheduler,
    r2: Result<RecvOutcome, IpcError>,
    d2: Option<Dispatch>,
)
    requires
        ep_id < MAX_ENDPOINTS,
        t0@[ep_id as int].senders.len() >= 2,
        sender_queue_kept(t0, ta, ep_id as int),
        received(ta, sa, ep_id, tb, sb, r1, d1),
        sender_queue_kept(tb, tc, ep_id as int),
        received(tc, sc, ep_id, td, sd, r2, d2),
    ensures
        r1 == Ok::<RecvOutcome, IpcError>(
            RecvOutcome::Got(t0@[ep_id as int].senders[0].msg, t0@[ep_id as int].senders[0].grant),
        ),
        r2 == Ok::<RecvOutcome, IpcError>(
            RecvOutcome::Got(t0@[ep_id as int].senders[1].msg, t0@[ep_id as int].senders[1].grant),
        ),
{
    let e = ep_id as int;
    let q0 = t0@[e].senders;
    assert(ta@[e].senders[0] == q0[0]) by {
        assert(ta@[e].senders.subrange(0, q0.len() as int)[0] == ta@[e].senders[0]);
    }
    assert(ta@[e].senders[1] == q0[1]) by {
        assert(ta@[e].senders.subrange(0, q0.len() as int)[1] == ta@[e].senders[1]);
    }
    assert(tb@[e].senders[0] == q0[1]);
    assert(tc@[e].senders[0] == q0[1]) by {
        assert(tc@[e].senders.subrange(0, tb@[e].senders.len() as int)[0] == tc@[e].senders[0]);
    }
}

/// A signal adds its bits to the pending set: with nobody waiting, the
/// set afterwards is exactly the old set OR the signalled bits (every bit
/// pending before stays pending, every signalled bit becomes pending, no
/// other bit appears); with a waiter and a non-empty result, the waiter
/// is woken with exactly that union in a0.
pub proof fn lemma_signal_ors_in_bits(
    t0: EndpointTable,
    s0: Scheduler,
    n: NotifId,
    bits: u64,
    t1: EndpointTable,
    s1: Scheduler,
    r: Result<(), IpcError>,
)
    requires
        n < MAX_NOTIFS,
        signalled(t0, s0, n, bits, t1, s1, r),
    ensures
        r == Ok::<(), IpcError>(()),
        t0.nview()[n as int].waiter is None ==> {
            let old_set = t0.nview()[n as int].bits;
            let new_set = t1.nview()[n as int].bits;
            &&& new_set == old_set | bits
            &&& new_set & old_set == old_set
            &&& new_set & bits == bits
            &&& forall|x: u64| x & old_set == 0 && x & bits == 0 ==> #[trigger] (x & new_set) == 0
        },
        t0.nview()[n as int].waiter is Some && (t0.nview()[n as int].bits | bits) != 0 ==> {
            let w = t0.nview()[n as int].waiter.unwrap();
            &&& s1.kstack_frames@[w - 1].regs@[10] == t0.nview()[n as int].bits | bits
            &&& t1.nview()[n as int].bits == 0
            &&& t1.nview()[n as int].waiter is None
        },
{
    let o = t0.nview()[n as int].bits;
    assert((o | bits) & o == o) by (bit_vector);
    assert((o | bits) & bits == bits) by (bit_vector);
    assert(forall|x: u64| x & o == 0 && x & bits == 0 ==> #[trigger] (x & (o | bits)) == 0) by (bit_vector);
}

/// Two signals and then a wait, on a notification nobody waits on: the
/// wait returns the union of the pending set and both signals' bits (when
/// that is non-empty), and leaves the set empty.
pub proof fn lemma_two_signals_then_wait(
    t0: EndpointTable,
    s0: Scheduler,
    n: NotifId,
    b1: u64,
    t1: EndpointTable,
    s1: Scheduler,
    r1: Result<(), IpcError>,
    s1b: Scheduler,
    b2: u64,
    t2: EndpointTable,
    s2: Scheduler,
    r2: Result<(), IpcError>,
    s2b: Scheduler,
    t3: EndpointTable,
    s3: Scheduler,
    r3: Result<WaitOutcome, IpcError>,
    d3: Option<Dispatch>,
)
    requires
        n < MAX_NOTIFS,
        t0.nview()[n as int].waiter is None,
        signalled(t0, s0, n, b1, t1, s1, r1),
        signalled(t1, s1b, n, b2, t2, s2, r2),
        waited(t2, s2b, n, t3, s3, r3, d3),
        (t0.nview()[n as int].bits | b1 | b2) != 0,
    ensures
        r3 == Ok::<WaitOutcome, IpcError>(WaitOutcome::Got(t0.nview()[n as int].bits | b1 | b2)),
        d3 is None,
        t3.nview()[n as int].bits == 0,
{
}

/// A signal with non-zero bits on a notification nobody waits on, then a
/// wait on it: the wait returns exactly those bits at once and leaves the
/// set empty.
pub proof fn lemma_signal_then_wait(
    t0: EndpointTable,
    s0: Scheduler,
    n: NotifId,
    bits: u64,
    t1: EndpointTable,
    s1: Scheduler,
    r1: Result<(), IpcError>,
    s1b: Scheduler,
    t2: EndpointTable,
    s2: Scheduler,
    r2: Result<WaitOutcome, IpcError>,
    d2: Option<Dispatch>,
)
    requires
        n < MAX_NOTIFS,
        t0.nview()[n as int].bits == 0,
        t0.nview()[n as int].waiter is None,
        bits != 0,
        signalled(t0, s0, n, bits, t1, s1, r1),
        waited(t1, s1b, n, t2, s2, r2, d2),
    ensures
        r1 == Ok::<(), IpcError>(()),
        r2 == Ok::<WaitOutcome, IpcError>(WaitOutcome::Got(bits)),
        d2 is None,
        t2.nview()[n as int].bits == 0,
{
    assert(0u64 | bits == bits) by (bit_vector);
}

} // verus!
