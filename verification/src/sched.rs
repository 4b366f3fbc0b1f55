//! Round-robin scheduler over a fixed process table.
//!
//! The table, the current index and the scheduler's own kernel context
//! are held in [`Scheduler`]. Every operation that would hand the cpu to
//! another task returns a [`Dispatch`] describing the context switch; the
//! platform layer installs the task's runtime (satp, sscratch) and
//! performs the switch.

use vstd::prelude::*;

use crate::cap::{Cap, CapTable, CAP_SLOTS};
use crate::ipc::{
    dropped, ipc_inv, lemma_inv_same_waits, lemma_no_phantom_waiters, notif_dropped, receivers_without,
    senders_without, EndpointId, EndpointTable, Message, NotifId, SendWait, MAX_ENDPOINTS, MAX_NOTIFS,
};
use crate::mm::{
    satp_for, SATP_SV39, fresh_data_pages, image_pages_needed, image_pages_needed_for, map_user_image, new_user_pt, pages_for, pt_wf, translate,
    user_translation, image_loaded, zero_page, PhysMem, KERNEL_MAP_TABLES, PAGE_SIZE,
};
use crate::trap::TrapFrame;

verus! {

/// matches FRAME_SIZE in the trap entry stub. the trap frame for a task
/// lives at kstack_top - FRAME_SIZE while the task is paused.
pub const FRAME_SIZE: u64 = 280;

pub const MAX_PROCS: usize = 4;

pub const KSTACK_PAGES: usize = 4;  // 16 KiB per task

pub use crate::mm::{USER_CODE_VA, USER_STACK_PAGES, USER_STACK_VA};

pub const SSTATUS_SPP: u64 = 1 << 8;

pub const SSTATUS_SPIE: u64 = 1 << 5;

pub const SSTATUS_SUM: u64 = 1 << 18;

#[derive(PartialEq, Eq, Clone, Copy, Structural)]
pub enum State {
    Unused,
    Ready,
    Running,
    BlockedOnSend(EndpointId),
    BlockedOnRecv(EndpointId),
    BlockedOnNotif(NotifId),
    Exited,
}

impl State {
    /// the endpoint a task in this state waits to send on.
    pub open spec fn sending_on(self) -> Option<EndpointId> {
        match self {
            State::BlockedOnSend(e) => Some(e),
            _ => None,
        }
    }

    /// the endpoint a task in this state waits to receive on.
    pub open spec fn receiving_on(self) -> Option<EndpointId> {
        match self {
            State::BlockedOnRecv(e) => Some(e),
            _ => None,
        }
    }

    /// the notification a task in this state waits on.
    pub open spec fn notified_by(self) -> Option<NotifId> {
        match self {
            State::BlockedOnNotif(n) => Some(n),
            _ => None,
        }
    }
}

#[derive(Clone, Copy)]
pub struct KContext {
    pub ra: u64,
    pub sp: u64,
    pub s: [u64; 12],
}

impl KContext {
    pub open spec fn is_zeroed(&self) -> bool {
        &&& self.ra == 0
        &&& self.sp == 0
        &&& forall|i: int| 0 <= i < 12 ==> self.s@[i] == 0
    }
}

impl Default for KContext {
    fn default() -> (k: Self)
        ensures
            k.is_zeroed(),
    {
        KContext { ra: 0, sp: 0, s: [0u64; 12] }
    }
}

#[derive(Clone, Copy)]
pub struct Process {
    pub pid: u32,
    pub state: State,
    pub kctx: KContext,
    pub kstack_top: u64,
    /// physical address of the task's root page table.
    pub pt: usize,
    pub frame: TrapFrame,
    pub user_entry: u64,
    pub user_sp: u64,
    pub caps: CapTable,
    /// the slot a blocked receiver wants any incoming granted cap
    /// installed at.
    pub pending_grant_dst: u8,
}

/// Where the outgoing task's kernel context is saved on a switch.
#[derive(Clone, Copy, PartialEq, Eq, Structural)]
pub enum SwitchFrom {
    /// into the kctx of the task at this table index.
    Task(usize),
    /// into the scheduler's own context.
    Scheduler,
    /// nowhere: the outgoing task is abandoned.
    Discard,
}

/// What the platform has to do after a scheduling decision.
#[derive(Clone, Copy, PartialEq, Eq, Structural)]
pub enum Dispatch {
    /// install the runtime of task `to` and context-switch into it.
    Switch { from: SwitchFrom, to: usize },
    /// nothing can run any more: shut the machine down.
    Halt,
}

pub struct Scheduler {
    pub procs: [Process; MAX_PROCS],
    /// index of the running task, `MAX_PROCS` when there is none.
    pub current: usize,
    pub sched_ctx: KContext,
    /// the trap frame each paused task left on its kernel stack (at
    /// `frame_of(idx)`); writing here sets what sret will load.
    pub kstack_frames: [TrapFrame; MAX_PROCS],
}

pub open spec fn with_state(p: Process, s: State) -> Process {
    Process { state: s, ..p }
}

/// the i-th candidate (1-based) of the round-robin scan after `skip`.
pub open spec fn rr_index(skip: int, i: int) -> int {
    if skip < MAX_PROCS {
        (skip + i) % (MAX_PROCS as int)
    } else {
        i - 1
    }
}

/// the first ready task among candidates i, i+1, ..., MAX_PROCS of the
/// scan after `skip`, or MAX_PROCS when there is none.
pub open spec fn first_ready_from(procs: Seq<Process>, skip: int, i: int) -> int
    decreases MAX_PROCS + 1 - i,
{
    if i < 1 || i > MAX_PROCS {
        MAX_PROCS as int
    } else if procs[rr_index(skip, i)].state == State::Ready {
        rr_index(skip, i)
    } else {
        first_ready_from(procs, skip, i + 1)
    }
}

/// round-robin choice: the first ready task after `skip` in cyclic order.
pub open spec fn pick_next_spec(procs: Seq<Process>, skip: int) -> int {
    first_ready_from(procs, skip, 1)
}

impl Scheduler {
    /// Table well-formedness: a used slot i holds pid i + 1, the current
    /// task (if any) is the one and only running task.
    pub open spec fn wf(&self) -> bool {
        &&& self.current <= MAX_PROCS
        &&& forall|i: int|
            0 <= i < MAX_PROCS && (#[trigger] self.procs@[i]).state != State::Unused
                ==> self.procs@[i].pid == i + 1
        &&& self.current < MAX_PROCS ==> self.procs@[self.current as int].state == State::Running
        &&& forall|i: int|
            0 <= i < MAX_PROCS && (#[trigger] self.procs@[i]).state == State::Running
                ==> i == self.current
    }

    /// the table index that owns `pid`, if a used slot does.
    pub open spec fn idx_of(&self, pid: u32) -> Option<usize> {
        if 1 <= pid <= MAX_PROCS && self.procs@[pid - 1].state != State::Unused
            && self.procs@[pid - 1].pid == pid {
            Some((pid - 1) as usize)
        } else {
            None
        }
    }

    pub fn new() -> (s: Self)
        ensures
            s.wf(),
            s.current == MAX_PROCS,
            forall|i: int| 0 <= i < MAX_PROCS ==> (#[trigger] s.procs@[i]).state == State::Unused,
    {
        let empty = Process {
            pid: 0,
            state: State::Unused,
            kctx: KContext { ra: 0, sp: 0, s: [0u64; 12] },
            kstack_top: 0,
            pt: 0,
            frame: TrapFrame::default(),
            user_entry: 0,
            user_sp: 0,
            caps: CapTable::empty(),
            pending_grant_dst: 0xff,
        };
        Scheduler {
            procs: [empty; MAX_PROCS],
            current: MAX_PROCS,
            sched_ctx: KContext::default(),
            kstack_frames: [TrapFrame::default(); MAX_PROCS],
        }
    }

    /// round-robin next-runnable-after(skip).
    pub fn pick_next(&self, skip: usize) -> (r: usize)
        ensures
            r == pick_next_spec(self.procs@, skip as int),
    {
        let mut i: usize = 1;
        while i <= MAX_PROCS
            invariant
                1 <= i <= MAX_PROCS + 1,
                first_ready_from(self.procs@, skip as int, 1) == first_ready_from(
                    self.procs@,
                    skip as int,
                    i as int,
                ),
            decreases MAX_PROCS + 1 - i,
        {
            let idx = if skip < MAX_PROCS {
                (skip + i) % MAX_PROCS
            } else {
                i - 1
            };
            if self.procs[idx].state == State::Ready {
                return idx;
            }
            i += 1;
        }
        MAX_PROCS
    }

    /// the running task, if any.
    pub fn current(&self) -> (r: Option<&Process>)
        ensures
            match r {
                Some(p) => self.current < MAX_PROCS && self.procs@[self.current as int].state
                    != State::Unused && *p == self.procs@[self.current as int],
                None => self.current >= MAX_PROCS || self.procs@[self.current as int].state
                    == State::Unused,
            },
    {
        if self.current < MAX_PROCS && self.procs[self.current].state != State::Unused {
            Some(&self.procs[self.current])
        } else {
            None
        }
    }

    /// pid (1-based) of the currently running task, 0 when there is none.
    pub fn current_pid(&self) -> (pid: u32)
        ensures
            pid == (if self.current < MAX_PROCS {
                self.procs@[self.current as int].pid
            } else {
                0
            }),
    {
        if self.current < MAX_PROCS {
            self.procs[self.current].pid
        } else {
            0
        }
    }

    /// address of a task's saved trap frame on its kernel stack.
    pub fn frame_of(&self, idx: usize) -> (a: u64)
        requires
            idx < MAX_PROCS,
            self.procs@[idx as int].kstack_top >= FRAME_SIZE,
        ensures
            a == self.procs@[idx as int].kstack_top - FRAME_SIZE,
    {
        self.procs[idx].kstack_top - FRAME_SIZE
    }

    /// the first used slot holding `pid`.
    pub fn idx_for(&self, pid: u32) -> (r: Option<usize>)
        ensures
            match r {
                Some(i) => i < MAX_PROCS && self.procs@[i as int].pid == pid
                    && self.procs@[i as int].state != State::Unused && forall|j: int|
                    0 <= j < i ==> !(self.procs@[j].pid == pid && self.procs@[j].state
                        != State::Unused),
                None => forall|j: int|
                    0 <= j < MAX_PROCS ==> !(self.procs@[j].pid == pid && self.procs@[j].state
                        != State::Unused),
            },
            self.wf() ==> r == self.idx_of(pid),
    {
        let mut i: usize = 0;
        while i < MAX_PROCS
            invariant
                i <= MAX_PROCS,
                forall|j: int|
                    0 <= j < i ==> !(self.procs@[j].pid == pid && self.procs@[j].state
                        != State::Unused),
            decreases MAX_PROCS - i,
        {
            if self.procs[i].pid == pid && self.procs[i].state != State::Unused {
                return Some(i);
            }
            i += 1;
        }
        None
    }

    /// the current task's capability table.
    pub fn current_caps_mut(&mut self) -> (caps: &mut CapTable)
        requires
            old(self).current < MAX_PROCS,
        ensures
            frames_kept(*old(self), *final(self)),
            *caps == old(self).procs@[old(self).current as int].caps,
            final(self).current == old(self).current,
            final(self).procs@ == old(self).procs@.update(
                old(self).current as int,
                Process { caps: *final(caps), ..old(self).procs@[old(self).current as int] },
            ),
            final(self).sched_ctx == old(self).sched_ctx,
            final(self).kstack_frames == old(self).kstack_frames,
    {
        &mut self.procs[self.current].caps
    }

    /// initial cap installation into the task owning `pid`.
    pub fn install_cap(&mut self, pid: u32, slot: usize, c: Cap)
        requires
            old(self).wf(),
            old(self).idx_of(pid) is Some,
            slot < CAP_SLOTS,
        ensures
            frames_kept(*old(self), *final(self)),
            final(self).wf(),
            final(self).current == old(self).current,
            final(self).procs@[pid - 1] == (Process {
                caps: final(self).procs@[pid - 1].caps,
                ..old(self).procs@[pid - 1]
            }),
            final(self).procs@[pid - 1].caps@ == old(self).procs@[pid - 1].caps@.update(
                slot as int,
                c,
            ),
            forall|i: int|
                0 <= i < MAX_PROCS && i != pid - 1 ==> #[trigger] final(self).procs@[i] == old(
                    self,
                ).procs@[i],
            final(self).sched_ctx == old(self).sched_ctx,
            final(self).kstack_frames == old(self).kstack_frames,
            forall|t: EndpointTable| #[trigger] ipc_inv(t, *old(self)) ==> ipc_inv(t, *final(self)),
    {
        let idx = match self.idx_for(pid) {
            Some(i) => i,
            None => { return; },
        };
        let mut p = self.procs[idx];
        let _ = p.caps.install(slot, c);
        self.procs[idx] = p;
        proof {
            assert forall|t: EndpointTable| #[trigger] ipc_inv(t, *old(self)) implies ipc_inv(t, *self) by {
                lemma_inv_same_waits(t, *old(self), *self);
            }
        }
    }

    /// the csr values that install task `idx`'s runtime before switching
    /// to it: sscratch = its kernel stack top (so the next u-mode trap
    /// finds its kernel stack), satp = its page table.
    pub fn install_runtime(&self, idx: usize) -> (r: (u64, u64))
        requires
            idx < MAX_PROCS,
        ensures
            r.0 == self.procs@[idx as int].kstack_top,
            r.1 == SATP_SV39 | ((self.procs@[idx as int].pt as u64) >> 12u64),
    {
        let p = &self.procs[idx];
        let satp = satp_for(p.pt);
        (p.kstack_top, satp)
    }

    /// pop the current task off the cpu (its state was already changed by
    /// the caller), find the next runnable task and switch to it. with no
    /// runnable task left the machine halts.
    fn switch_away_from(&mut self, cur: usize) -> (d: Dispatch)
        requires
            cur < MAX_PROCS,
            old(self).current == cur,
            old(self).procs@[cur as int].state != State::Running,
            old(self).procs@[cur as int].state != State::Unused,
            forall|i: int|
                0 <= i < MAX_PROCS && (#[trigger] old(self).procs@[i]).state != State::Unused
                    ==> old(self).procs@[i].pid == i + 1,
            forall|i: int|
                0 <= i < MAX_PROCS ==> (#[trigger] old(self).procs@[i]).state != State::Running,
        ensures
            ({
                let next = pick_next_spec(old(self).procs@, cur as int);
                &&& next == MAX_PROCS ==> d == Dispatch::Halt && final(self).procs@ == old(
                    self,
                ).procs@ && final(self).current == cur
                &&& next < MAX_PROCS ==> d == (Dispatch::Switch { from: SwitchFrom::Task(cur), to: next as usize })
                    && final(self).procs@ == old(self).procs@.update(
                    next,
                    with_state(old(self).procs@[next], State::Running),
                ) && final(self).current == next && final(self).wf()
            }),
            final(self).sched_ctx == old(self).sched_ctx,
            final(self).kstack_frames == old(self).kstack_frames,
    {
        let next = self.pick_next(cur);
        if next == MAX_PROCS {
            return Dispatch::Halt;
        }
        proof { lemma_pick_next_ready(self.procs@, cur as int); }
        let mut p = self.procs[next];
        p.state = State::Running;
        self.procs[next] = p;
        self.current = next;
        Dispatch::Switch { from: SwitchFrom::Task(cur), to: next }
    }

    fn block_current(&mut self, st: State) -> (d: Dispatch)
        requires
            old(self).wf(),
            old(self).current < MAX_PROCS,
            st != State::Running,
            st != State::Unused,
        ensures
            blocked(*old(self), *final(self), st, d),
            frames_kept(*old(self), *final(self)),
    {
        let cur = self.current;
        let mut p = self.procs[cur];
        p.state = st;
        self.procs[cur] = p;
        let ghost mid = *self;
        let d = self.switch_away_from(cur);
        proof {
            lemma_pick_next_ready(mid.procs@, cur as int);
            assert forall|i: int|
                0 <= i < MAX_PROCS && (#[trigger] old(self).procs@[i]).state != State::Unused implies self.procs@[i].frame
                    == old(self).procs@[i].frame && self.procs@[i].state != State::Unused by {
                assert(mid.procs@[i].frame == old(self).procs@[i].frame);
                assert(mid.procs@[i].state != State::Unused);
                let next = pick_next_spec(mid.procs@, cur as int);
                if next < MAX_PROCS && i == next {
                    assert(self.procs@[i] == with_state(mid.procs@[i], State::Running));
                } else if next < MAX_PROCS {
                    assert(self.procs@ == mid.procs@.update(next, with_state(mid.procs@[next], State::Running)));
                    assert(self.procs@[i] == mid.procs@[i]);
                } else {
                    assert(self.procs@ == mid.procs@);
                }
            }
        }
        d
    }

    /// block the current task on a send and hand the cpu away.
    pub fn block_on_send(&mut self, ep: EndpointId) -> (d: Dispatch)
        requires
            old(self).wf(),
            old(self).current < MAX_PROCS,
        ensures
            frames_kept(*old(self), *final(self)),
            blocked(*old(self), *final(self), State::BlockedOnSend(ep), d),
    {
        self.block_current(State::BlockedOnSend(ep))
    }

    /// block the current task on a receive and hand the cpu away.
    pub fn block_on_recv(&mut self, ep: EndpointId) -> (d: Dispatch)
        requires
            old(self).wf(),
            old(self).current < MAX_PROCS,
        ensures
            frames_kept(*old(self), *final(self)),
            blocked(*old(self), *final(self), State::BlockedOnRecv(ep), d),
    {
        self.block_current(State::BlockedOnRecv(ep))
    }

    /// block the current task on a notification and hand the cpu away.
    pub fn block_on_notif(&mut self, n: NotifId) -> (d: Dispatch)
        requires
            old(self).wf(),
            old(self).current < MAX_PROCS,
        ensures
            frames_kept(*old(self), *final(self)),
            blocked(*old(self), *final(self), State::BlockedOnNotif(n), d),
    {
        self.block_current(State::BlockedOnNotif(n))
    }

    /// hand control to the next runnable task; `None` when there is none
    /// and the current task keeps the cpu.
    pub fn yield_now(&mut self) -> (d: Option<Dispatch>)
        requires
            old(self).wf(),
        ensures
            frames_kept(*old(self), *final(self)),
            final(self).wf(),
            forall|t: EndpointTable| #[trigger] ipc_inv(t, *old(self)) ==> ipc_inv(t, *final(self)),
            final(self).sched_ctx == old(self).sched_ctx,
            final(self).kstack_frames == old(self).kstack_frames,
            ({
                let cur = old(self).current;
                let next = pick_next_spec(old(self).procs@, cur as int);
                let demoted = if cur < MAX_PROCS {
                    old(self).procs@.update(cur as int, with_state(old(self).procs@[cur as int], State::Ready))
                } else {
                    old(self).procs@
                };
                &&& next == MAX_PROCS ==> d is None && final(self).procs@ == old(self).procs@
                    && final(self).current == cur
                &&& next < MAX_PROCS ==> d == Some(
                    Dispatch::Switch {
                        from: if cur < MAX_PROCS {
                            SwitchFrom::Task(cur)
                        } else {
                            SwitchFrom::Scheduler
                        },
                        to: next as usize,
                    },
                ) && final(self).current == next && final(self).procs@ == demoted.update(
                    next,
                    with_state(demoted[next], State::Running),
                )
            }),
    {
        let cur = self.current;
        let next = self.pick_next(cur);
        if next == MAX_PROCS {
            return None;
        }
        proof { lemma_pick_next_ready(self.procs@, cur as int); }
        if cur < MAX_PROCS && self.procs[cur].state == State::Running {
            let mut p = self.procs[cur];
            p.state = State::Ready;
            self.procs[cur] = p;
        }
        let mut n = self.procs[next];
        n.state = State::Running;
        self.procs[next] = n;
        self.current = next;
        let from = if cur < MAX_PROCS {
            SwitchFrom::Task(cur)
        } else {
            SwitchFrom::Scheduler
        };
        proof {
            assert forall|t: EndpointTable| #[trigger] ipc_inv(t, *old(self)) implies ipc_inv(t, *self) by {
                lemma_inv_same_waits(t, *old(self), *self);
            }
        }
        Some(Dispatch::Switch { from, to: next })
    }

    /// install a new user task built from an image of `blob_len` bytes:
    /// a fresh page table holding the kernel map, the image's code pages
    /// at USER_CODE_VA, a user stack below USER_STACK_VA + 16 KiB and a
    /// contiguous kernel stack; the task is ready to be entered through
    /// `trampoline`. Returns its pid, page table and data pages.
    pub fn spawn(&mut self, mem: &mut PhysMem, blob: &[u8], trampoline: u64) -> (r: Spawned)
        requires
            old(self).wf(),
            first_unused(old(self).procs@) < MAX_PROCS,
            old(mem).wf(),
            blob@.len() + PAGE_SIZE - 1 <= usize::MAX,
            old(mem).free_pages() >= spawn_pages_needed(blob@.len() as int),
        ensures
            frames_kept(*old(self), *final(self)),
            ({
                let slot = first_unused(old(self).procs@);
                let kstack_top = final(mem).spec_next_free() as u64;
                &&& r.pid == slot + 1
                &&& final(self).procs@ == old(self).procs@.update(slot, final(self).procs@[slot])
                &&& spawned_process(final(self).procs@[slot], slot, r.pt, kstack_top, trampoline)
            }),
            final(self).wf(),
            final(self).current == old(self).current,
            final(self).sched_ctx == old(self).sched_ctx,
            final(self).kstack_frames == old(self).kstack_frames,
            forall|t: EndpointTable| #[trigger] ipc_inv(t, *old(self)) ==> ipc_inv(t, *final(self)),
            final(mem).wf(),
            final(mem).spec_base() == old(mem).spec_base(),
            final(mem).spec_next_free() == old(mem).spec_next_free() + spawn_pages_needed(blob@.len() as int)
                * PAGE_SIZE,
            r.pt == old(mem).spec_next_free(),
            r.code_pages@.len() == pages_for(blob@.len() as int),
            r.stack_pages@.len() == USER_STACK_PAGES,
            pt_wf(final(mem)@, r.pt as int),
            forall|x: u64|
                x % 4096 == 0 && x < 0x80_0000_0000 ==> #[trigger] translate(final(mem)@, r.pt as int, x)
                    == user_translation(r.code_pages@, r.stack_pages@, x),
            fresh_data_pages(
                final(mem)@,
                r.code_pages@ + r.stack_pages@,
                old(mem).spec_next_free(),
                final(mem).spec_next_free() - KSTACK_PAGES * PAGE_SIZE,
            ),
            forall|a: int| #[trigger] final(mem)@.contains_key(a) ==> a < final(mem).spec_next_free()
                - KSTACK_PAGES * PAGE_SIZE,
            forall|a: int| #[trigger] old(mem)@.contains_key(a) ==> final(mem)@.contains_key(a)
                && final(mem)@[a] == old(mem)@[a],
            image_loaded(old(mem).bytes(), final(mem).bytes(), blob@, r.code_pages@, r.stack_pages@),
            forall|k: int|
                0 <= k < KSTACK_PAGES ==> final(mem).bytes().contains_key(
                    #[trigger] kstack_page(final(mem).spec_next_free(), k),
                ) && final(mem).bytes()[kstack_page(final(mem).spec_next_free(), k)] == zero_page(),
    {
        let blob_len = blob.len();
        let slot = self.find_unused();
        let pid = (slot as u32) + 1;
        proof {
            crate::mm::lemma_free_pages(*mem, KERNEL_MAP_TABLES as int);
        }
        let ghost m0 = mem@;
        let ghost nf0 = mem.spec_next_free();
        let pt = new_user_pt(mem);
        let ghost m1 = mem@;
        proof {
            crate::mm::lemma_free_pages(*mem, image_pages_needed(pages_for(blob.len() as int)) + KSTACK_PAGES);
        }
        let (code, stack) = map_user_image(mem, pt, blob);
        proof {
            assert forall|a: int| #[trigger] m0.contains_key(a) implies mem@.contains_key(a) && mem@[a] == m0[a] by {
                assert(a < nf0);
                assert(m1.contains_key(a) && m1[a] == m0[a]);
            }
        }
        let user_sp_top = USER_STACK_VA + (USER_STACK_PAGES * PAGE_SIZE) as u64;
        // kernel stack: contiguous pages from the bump allocator.
        let ghost nfk = mem.spec_next_free();
        let ghost mk = mem@;
        let ghost bk = mem.bytes();
        let mut kstack_lo: u64 = 0;
        let mut i: usize = 0;
        while i < KSTACK_PAGES
            invariant
                mem.wf(),
                mem@ == mk,
                forall|a: int| #[trigger] bk.contains_key(a) ==> mem.bytes().contains_key(a) && mem.bytes()[a] == bk[a],
                forall|k: int| 0 <= k < i ==> mem.bytes().contains_key(#[trigger] (nfk + k * PAGE_SIZE))
                    && mem.bytes()[nfk + k * PAGE_SIZE] == zero_page(),
                mem.spec_base() == old(mem).spec_base(),
                i <= KSTACK_PAGES,
                mem.spec_next_free() == nfk + i * PAGE_SIZE,
                nfk + KSTACK_PAGES * PAGE_SIZE <= crate::mm::PHYS_END,
                i > 0 ==> kstack_lo == nfk,
            decreases KSTACK_PAGES - i,
        {
            proof {
                crate::mm::lemma_free_pages(*mem, 1);
            }
            let ghost bb = mem.bytes();
            let p = match mem.alloc_page() {
                Some(p) => p as u64,
                None => { 0 },
            };
            proof {
                assert(!bb.contains_key(nfk + i * PAGE_SIZE));
                assert forall|a: int| #[trigger] bk.contains_key(a) implies mem.bytes().contains_key(a) && mem.bytes()[a] == bk[a] by {
                    assert(bb.contains_key(a));
                    assert(a != nfk + i * PAGE_SIZE);
                }
            }
            if i == 0 {
                kstack_lo = p;
            }
            i += 1;
        }
        proof {
            assert forall|k: int| 0 <= k < KSTACK_PAGES implies #[trigger] kstack_page(mem.spec_next_free(), k)
                == nfk + k * PAGE_SIZE by {}
        }
        let kstack_top = kstack_lo + (KSTACK_PAGES * PAGE_SIZE) as u64;
        let mut frame = TrapFrame::default();
        frame.sepc = USER_CODE_VA;
        frame.regs[2] = user_sp_top;  // x2 = sp
        frame.sstatus = SSTATUS_SPIE | SSTATUS_SUM;  // SPP=0 (return to U), SUM=1, IE on after sret
        let mut kctx = KContext::default();
        kctx.ra = trampoline;
        kctx.sp = kstack_top;
        let p = Process {
            pid,
            state: State::Ready,
            kctx,
            kstack_top,
            pt,
            frame,
            user_entry: USER_CODE_VA,
            user_sp: user_sp_top,
            caps: CapTable::empty(),
            pending_grant_dst: 0xff,
        };
        self.procs[slot] = p;
        proof {
            assert forall|t: EndpointTable| #[trigger] ipc_inv(t, *old(self)) implies ipc_inv(t, *self) by {
                lemma_inv_same_waits(t, *old(self), *self);
            }
        }
        Spawned { pid, pt, code_pages: code, stack_pages: stack }
    }

    /// index of the first unused slot.
    fn find_unused(&self) -> (slot: usize)
        requires
            first_unused(self.procs@) < MAX_PROCS,
        ensures
            slot == first_unused(self.procs@),
            self.procs@[slot as int].state == State::Unused,
    {
        let mut i: usize = 0;
        while i < MAX_PROCS
            invariant
                i <= MAX_PROCS,
                first_unused(self.procs@) == first_unused_from(self.procs@, i as int),
                first_unused(self.procs@) < MAX_PROCS,
            decreases MAX_PROCS - i,
        {
            if self.procs[i].state == State::Unused {
                return i;
            }
            i += 1;
        }
        0
    }

    /// mark the current task as exited (dropping any wait it registered)
    /// and switch to the first ready task, abandoning the exited one. with
    /// nothing ready the machine halts.
    pub fn exit_current(&mut self, endpoints: &mut EndpointTable) -> (d: Dispatch)
        requires
            old(self).wf(),
            old(endpoints).wf(),
        ensures
            frames_kept(*old(self), *final(self)),
            final(endpoints).wf(),
            ({
                let cur = old(self).current;
                let gone = if cur < MAX_PROCS {
                    old(self).procs@.update(cur as int, with_state(old(self).procs@[cur as int], State::Exited))
                } else {
                    old(self).procs@
                };
                let next = pick_next_spec(gone, MAX_PROCS as int);
                &&& cur < MAX_PROCS ==> forall|e: int|
                    0 <= e < MAX_ENDPOINTS ==> #[trigger] final(endpoints)@[e] == dropped(
                        old(endpoints)@[e],
                        old(self).procs@[cur as int].pid,
                    )
                &&& cur < MAX_PROCS ==> forall|n: int|
                    0 <= n < MAX_NOTIFS ==> #[trigger] final(endpoints).nview()[n] == notif_dropped(
                        old(endpoints).nview()[n],
                        old(self).procs@[cur as int].pid,
                    )
                &&& cur >= MAX_PROCS ==> final(endpoints)@ == old(endpoints)@ && final(endpoints).nview()
                    == old(endpoints).nview()
                &&& next == MAX_PROCS ==> d == Dispatch::Halt && final(self).procs@ == gone
                    && final(self).current == cur
                &&& next < MAX_PROCS ==> d == (Dispatch::Switch { from: SwitchFrom::Discard, to: next as usize })
                    && final(self).procs@ == gone.update(next, with_state(gone[next], State::Running))
                    && final(self).current == next && final(self).wf()
            }),
            d != Dispatch::Halt && ipc_inv(*old(endpoints), *old(self)) ==> ipc_inv(
                *final(endpoints),
                *final(self),
            ),
            final(self).sched_ctx == old(self).sched_ctx,
            final(self).kstack_frames == old(self).kstack_frames,
    {
        let cur = self.current;
        if cur < MAX_PROCS {
            let pid = self.procs[cur].pid;
            endpoints.drop_waiters(pid);
            let mut p = self.procs[cur];
            p.state = State::Exited;
            self.procs[cur] = p;
        }
        let next = self.pick_next(MAX_PROCS);
        if next == MAX_PROCS {
            return Dispatch::Halt;
        }
        proof {
            lemma_pick_next_ready(self.procs@, MAX_PROCS as int);
        }
        let mut n = self.procs[next];
        n.state = State::Running;
        self.procs[next] = n;
        self.current = next;
        proof {
            if ipc_inv(*old(endpoints), *old(self)) {
                if cur < MAX_PROCS {
                    lemma_inv_after_exit(*old(endpoints), *old(self), *endpoints);
                }
                lemma_inv_same_waits(*old(endpoints), *old(self), *self);
            }
        }
        Dispatch::Switch { from: SwitchFrom::Discard, to: next }
    }

    /// the first dispatch after boot: run the first ready task from the
    /// scheduler's own context.
    pub fn start(&mut self) -> (d: Dispatch)
        requires
            old(self).wf(),
            pick_next_spec(old(self).procs@, MAX_PROCS as int) < MAX_PROCS,
        ensures
            frames_kept(*old(self), *final(self)),
            ({
                let next = pick_next_spec(old(self).procs@, MAX_PROCS as int);
                &&& d == (Dispatch::Switch { from: SwitchFrom::Scheduler, to: next as usize })
                &&& final(self).current == next
                &&& final(self).procs@ == old(self).procs@.update(
                    next,
                    with_state(old(self).procs@[next], State::Running),
                )
            }),
            old(self).current == MAX_PROCS ==> final(self).wf(),
            forall|t: EndpointTable|
                #[trigger] ipc_inv(t, *old(self)) && old(self).current == MAX_PROCS ==> ipc_inv(t, *final(self)),
            final(self).sched_ctx == old(self).sched_ctx,
            final(self).kstack_frames == old(self).kstack_frames,
    {
        let next = self.pick_next(MAX_PROCS);
        proof { lemma_pick_next_ready(self.procs@, MAX_PROCS as int); }
        let mut n = self.procs[next];
        n.state = State::Running;
        self.procs[next] = n;
        self.current = next;
        proof {
            assert forall|t: EndpointTable|
                #[trigger] ipc_inv(t, *old(self)) && old(self).current == MAX_PROCS implies ipc_inv(t, *self) by {
                lemma_inv_same_waits(t, *old(self), *self);
            }
        }
        Dispatch::Switch { from: SwitchFrom::Scheduler, to: next }
    }

    /// wake a blocked task and stash a status word in the a0 register of
    /// its saved frame.
    pub fn wake_with_status(&mut self, pid: u32, a0: u64)
        requires
            old(self).wf(),
            old(self).idx_of(pid) is Some,
        ensures
            frames_kept(*old(self), *final(self)),
            woken(*old(self), *final(self), pid, a0),
    {
        let idx = match self.idx_for(pid) {
            Some(i) => i,
            None => { return; },
        };
        let mut f = self.kstack_frames[idx];
        f.regs[10] = a0;  // a0
        self.kstack_frames[idx] = f;
        let mut p = self.procs[idx];
        p.state = State::Ready;
        self.procs[idx] = p;
    }

    /// fast-path delivery of a 4-word message to a blocked receiver; an
    /// optional granted capability goes into the receiver's stashed
    /// grant slot (silently dropped when that slot is out of range).
    pub fn deliver_to(&mut self, pid: u32, msg: Message, grant: Option<Cap>)
        requires
            old(self).wf(),
            old(self).idx_of(pid) is Some,
        ensures
            frames_kept(*old(self), *final(self)),
            delivered(*old(self), *final(self), pid, msg, grant),
    {
        let idx = match self.idx_for(pid) {
            Some(i) => i,
            None => { return; },
        };
        let mut p = self.procs[idx];
        if let Some(g) = grant {
            let dst = p.pending_grant_dst as usize;
            let _ = p.caps.install(dst, g);
        }
        let mut f = self.kstack_frames[idx];
        f.regs[10] = msg.label;
        f.regs[11] = msg.words[0];
        f.regs[12] = msg.words[1];
        f.regs[13] = msg.words[2];
        self.kstack_frames[idx] = f;
        p.state = State::Ready;
        self.procs[idx] = p;
    }

    /// stash the current task's grant destination slot.
    pub fn set_current_grant_dst(&mut self, slot: u8)
        ensures
            frames_kept(*old(self), *final(self)),
            final(self).current == old(self).current,
            old(self).current < MAX_PROCS ==> final(self).procs@ == old(self).procs@.update(
                old(self).current as int,
                Process { pending_grant_dst: slot, ..old(self).procs@[old(self).current as int] },
            ),
            old(self).current >= MAX_PROCS ==> final(self).procs@ == old(self).procs@,
            final(self).sched_ctx == old(self).sched_ctx,
            final(self).kstack_frames == old(self).kstack_frames,
    {
        if self.current < MAX_PROCS {
            let mut p = self.procs[self.current];
            p.pending_grant_dst = slot;
            self.procs[self.current] = p;
        }
    }

    /// copy the trap frame into the current task's record.
    pub fn save_frame(&mut self, frame: &TrapFrame)
        ensures
            frame_saved(*old(self), *final(self), *frame),
    {
        if self.current < MAX_PROCS {
            let mut p = self.procs[self.current];
            p.frame = *frame;
            self.procs[self.current] = p;
        }
    }

    /// copy the current task's saved frame back into `frame`.
    pub fn load_frame(&self, frame: &mut TrapFrame)
        ensures
            frame_loaded(*self, *old(frame), *final(frame)),
    {
        if self.current < MAX_PROCS {
            *frame = self.procs[self.current].frame;
        }
    }
}

/// The effect of saving `f` as the current task's frame: the current
/// task's record holds `f`, nothing else changes (no task running: nothing
/// changes).
pub open spec fn frame_saved(old: Scheduler, new: Scheduler, f: TrapFrame) -> bool {
    &&& new.current == old.current
    &&& old.current < MAX_PROCS ==> new.procs@ == old.procs@.update(
        old.current as int,
        Process { frame: f, ..old.procs@[old.current as int] },
    )
    &&& old.current >= MAX_PROCS ==> new.procs@ == old.procs@
    &&& new.sched_ctx == old.sched_ctx
    &&& new.kstack_frames == old.kstack_frames
}

/// The effect of loading the current task's frame into `g0`, giving `g1`
/// (no task running: `g0` is left as it was).
pub open spec fn frame_loaded(s: Scheduler, g0: TrapFrame, g1: TrapFrame) -> bool {
    &&& s.current < MAX_PROCS ==> g1 == s.procs@[s.current as int].frame
    &&& s.current >= MAX_PROCS ==> g1 == g0
}

/// Every task in use keeps the frame saved in its record.
pub open spec fn frames_kept(old: Scheduler, new: Scheduler) -> bool {
    forall|i: int|
        0 <= i < MAX_PROCS && (#[trigger] old.procs@[i]).state != State::Unused ==> new.procs@[i].frame
            == old.procs@[i].frame && new.procs@[i].state != State::Unused
}

/// Keeping the saved frames composes over a run of operations.
pub proof fn lemma_frames_kept_compose(s0: Scheduler, s1: Scheduler, s2: Scheduler)
    requires
        frames_kept(s0, s1),
        frames_kept(s1, s2),
    ensures
        frames_kept(s0, s2),
{
    assert forall|i: int| 0 <= i < MAX_PROCS && (#[trigger] s0.procs@[i]).state != State::Unused implies s2.procs@[i].frame
        == s0.procs@[i].frame && s2.procs@[i].state != State::Unused by {
        assert(s1.procs@[i].state != State::Unused);
    }
}

/// A load after a save gives back exactly the saved frame, whatever ran
/// in between, as long as the saved frames were kept (every operation of
/// the scheduler and of ipc but `save_frame` keeps them) and the same task
/// is current again.
pub proof fn lemma_load_after_save_across(
    s0: Scheduler,
    f: TrapFrame,
    s1: Scheduler,
    s2: Scheduler,
    g0: TrapFrame,
    g1: TrapFrame,
)
    requires
        s0.wf(),
        s0.current < MAX_PROCS,
        frame_saved(s0, s1, f),
        frames_kept(s1, s2),
        s2.current == s1.current,
        frame_loaded(s2, g0, g1),
    ensures
        g1 == f,
{
    assert(s1.procs@[s0.current as int].state != State::Unused);
}

/// A load right after a save, with a task running, gives back exactly the
/// saved frame.
pub proof fn lemma_load_after_save(s0: Scheduler, f: TrapFrame, s1: Scheduler, g0: TrapFrame, g1: TrapFrame)
    requires
        s0.current < MAX_PROCS,
        frame_saved(s0, s1, f),
        frame_loaded(s1, g0, g1),
    ensures
        g1 == f,
{
}

/// What `spawn` built besides the process record: the task's page table
/// and the data pages its image and stack were mapped onto (code pages
/// in order).
pub struct Spawned {
    pub pid: u32,
    pub pt: usize,
    pub code_pages: Vec<usize>,
    pub stack_pages: Vec<usize>,
}

/// pages `spawn` takes for an image of `blob_len` bytes: the kernel map,
/// the image and its stack with their tables, and the kernel stack.
pub open spec fn spawn_pages_needed(blob_len: int) -> int {
    KERNEL_MAP_TABLES + image_pages_needed(pages_for(blob_len)) + KSTACK_PAGES
}

/// the number of pages `spawn` takes for an image of `blob_len` bytes.
pub fn pages_needed_to_spawn(blob_len: usize) -> (n: usize)
    requires
        blob_len + PAGE_SIZE - 1 <= usize::MAX,
    ensures
        n == spawn_pages_needed(blob_len as int),
{
    KERNEL_MAP_TABLES + image_pages_needed_for(blob_len) + KSTACK_PAGES
}

/// page `k` of the kernel stack that ends where the allocator now stands.
pub open spec fn kstack_page(next_free: int, k: int) -> int {
    next_free - (KSTACK_PAGES - k) * PAGE_SIZE
}

/// the first unused slot at or after `i`, MAX_PROCS when there is none.
pub open spec fn first_unused_from(procs: Seq<Process>, i: int) -> int
    decreases MAX_PROCS - i,
{
    if i < 0 || i >= MAX_PROCS {
        MAX_PROCS as int
    } else if procs[i].state == State::Unused {
        i
    } else {
        first_unused_from(procs, i + 1)
    }
}

/// the first unused slot of the table, MAX_PROCS when there is none.
pub open spec fn first_unused(procs: Seq<Process>) -> int {
    first_unused_from(procs, 0)
}

/// the record `spawn` installs in slot `slot` for a task with page table
/// `pt` and kernel stack top `kstack_top`, first entered through `ra`.
pub open spec fn spawned_process(p: Process, slot: int, pt: usize, kstack_top: u64, ra: u64) -> bool {
    let user_sp_top = (USER_STACK_VA + USER_STACK_PAGES * PAGE_SIZE) as u64;
    &&& p.pid == slot + 1
    &&& p.state == State::Ready
    &&& p.kctx.ra == ra
    &&& p.kctx.sp == kstack_top
    &&& forall|i: int| 0 <= i < 12 ==> p.kctx.s@[i] == 0
    &&& p.kstack_top == kstack_top
    &&& p.pt == pt
    &&& p.frame.sepc == USER_CODE_VA
    &&& p.frame.sstatus == SSTATUS_SPIE | SSTATUS_SUM
    &&& p.frame._pad == 0
    &&& forall|i: int| 0 <= i < 32 ==> p.frame.regs@[i] == (if i == 2 { user_sp_top } else { 0 })
    &&& p.user_entry == USER_CODE_VA
    &&& p.user_sp == user_sp_top
    &&& forall|i: int| 0 <= i < CAP_SLOTS ==> p.caps@[i] == Cap::Empty
    &&& p.pending_grant_dst == 0xff
}

/// The effect of waking task `pid` with status `a0`: it becomes ready,
/// the a0 register of its saved frame holds `a0`, nothing else changes
/// (the table stays well formed unless the task was the running one).
pub open spec fn woken(old: Scheduler, new: Scheduler, pid: u32, a0: u64) -> bool {
    let i = pid - 1;
    &&& old.procs@[i].state != State::Running ==> new.wf()
    &&& new.current == old.current
    &&& new.procs@ == old.procs@.update(i, with_state(old.procs@[i], State::Ready))
    &&& new.kstack_frames@ == old.kstack_frames@.update(
        i,
        TrapFrame { regs: new.kstack_frames@[i].regs, ..old.kstack_frames@[i] },
    )
    &&& new.kstack_frames@[i].regs@ == old.kstack_frames@[i].regs@.update(10, a0)
    &&& new.sched_ctx == old.sched_ctx
}

/// The capability slots of `p` after a delivery carrying `grant`.
pub open spec fn caps_after_grant(p: Process, grant: Option<Cap>) -> Seq<Cap> {
    match grant {
        Some(g) => if (p.pending_grant_dst as int) < CAP_SLOTS {
            p.caps@.update(p.pending_grant_dst as int, g)
        } else {
            p.caps@
        },
        None => p.caps@,
    }
}

/// The effect of delivering `msg` (and `grant`) to task `pid`: it becomes
/// ready, a0..a3 of its saved frame hold the label and the three words,
/// the granted cap lands in its pending grant slot, nothing else changes.
pub open spec fn delivered(old: Scheduler, new: Scheduler, pid: u32, msg: Message, grant: Option<Cap>) -> bool {
    let i = pid - 1;
    let p = old.procs@[i];
    &&& old.procs@[i].state != State::Running ==> new.wf()
    &&& new.current == old.current
    &&& new.procs@ == old.procs@.update(
        i,
        Process { state: State::Ready, caps: new.procs@[i].caps, ..p },
    )
    &&& new.procs@[i].caps@ == caps_after_grant(p, grant)
    &&& new.kstack_frames@ == old.kstack_frames@.update(
        i,
        TrapFrame { regs: new.kstack_frames@[i].regs, ..old.kstack_frames@[i] },
    )
    &&& new.kstack_frames@[i].regs@ == old.kstack_frames@[i].regs@.update(10, msg.label).update(
        11,
        msg.words@[0],
    ).update(12, msg.words@[1]).update(13, msg.words@[2])
    &&& new.sched_ctx == old.sched_ctx
}

/// The outcome of blocking the current task in state `st`: it leaves the
/// cpu in that state; the next ready task in round-robin order after it
/// runs, or the machine halts when there is none.
pub open spec fn blocked(old: Scheduler, new: Scheduler, st: State, d: Dispatch) -> bool {
    let cur = old.current;
    let mid = old.procs@.update(cur as int, with_state(old.procs@[cur as int], st));
    let next = pick_next_spec(mid, cur as int);
    &&& next == MAX_PROCS ==> d == Dispatch::Halt && new.procs@ == mid && new.current == cur
    &&& next < MAX_PROCS ==> d == (Dispatch::Switch { from: SwitchFrom::Task(cur), to: next as usize })
        && new.procs@ == mid.update(next, with_state(mid[next], State::Running))
        && new.current == next && new.wf()
    &&& new.sched_ctx == old.sched_ctx
    &&& new.kstack_frames == old.kstack_frames
}

/// The round-robin choice is either "none" or a ready task, and "none"
/// only when no task at all is ready.
pub proof fn lemma_pick_next_ready(procs: Seq<Process>, skip: int)
    requires
        procs.len() == MAX_PROCS,
        0 <= skip <= MAX_PROCS,
    ensures
        pick_next_spec(procs, skip) == MAX_PROCS || (0 <= pick_next_spec(procs, skip) < MAX_PROCS
            && procs[pick_next_spec(procs, skip)].state == State::Ready),
        pick_next_spec(procs, skip) == MAX_PROCS <==> forall|i: int|
            0 <= i < MAX_PROCS ==> procs[i].state != State::Ready,
{
    reveal_with_fuel(first_ready_from, 5);
    let r = pick_next_spec(procs, skip);
    if r == MAX_PROCS {
        assert forall|i: int| 0 <= i < MAX_PROCS implies procs[i].state != State::Ready by {
            let k = if skip >= MAX_PROCS {
                i + 1
            } else if i > skip {
                i - skip
            } else {
                i - skip + MAX_PROCS
            };
            assert(1 <= k <= MAX_PROCS && rr_index(skip, k) == i);
        }
    }
}

/// Round robin, by the cyclic order itself: counting positions after
/// `skip` as 1, 2, .., MAX_PROCS (task `i` sits at position
/// `(i - skip - 1) % MAX_PROCS + 1`), the task picked is ready and every
/// task at an earlier position is not; the pick is "none" exactly when no
/// task is ready.
pub proof fn lemma_pick_next_is_first_ready_after(procs: Seq<Process>, skip: int)
    requires
        procs.len() == MAX_PROCS,
        0 <= skip < MAX_PROCS,
    ensures
        ({
            let r = pick_next_spec(procs, skip);
            &&& 0 <= r <= MAX_PROCS
            &&& r < MAX_PROCS ==> procs[r].state == State::Ready
            &&& r < MAX_PROCS ==> forall|i: int|
                0 <= i < MAX_PROCS && (i - skip - 1) % (MAX_PROCS as int) < (r - skip - 1) % (
                MAX_PROCS as int) ==> (#[trigger] procs[i]).state != State::Ready
            &&& r == MAX_PROCS <==> forall|i: int| 0 <= i < MAX_PROCS ==> (#[trigger] procs[i]).state != State::Ready
        }),
{
    reveal_with_fuel(first_ready_from, 5);
    lemma_pick_next_ready(procs, skip);
    let r = pick_next_spec(procs, skip);
    if r < MAX_PROCS {
        assert forall|i: int|
            0 <= i < MAX_PROCS && (i - skip - 1) % (MAX_PROCS as int) < (r - skip - 1) % (
            MAX_PROCS as int) implies (#[trigger] procs[i]).state != State::Ready by {
            if skip == 0 {
                assert(rr_index(skip, 1) == 1 && rr_index(skip, 2) == 2 && rr_index(skip, 3) == 3 && rr_index(skip, 4) == 0);
            } else if skip == 1 {
                assert(rr_index(skip, 1) == 2 && rr_index(skip, 2) == 3 && rr_index(skip, 3) == 0 && rr_index(skip, 4) == 1);
            } else if skip == 2 {
                assert(rr_index(skip, 1) == 3 && rr_index(skip, 2) == 0 && rr_index(skip, 3) == 1 && rr_index(skip, 4) == 2);
            } else {
                assert(rr_index(skip, 1) == 0 && rr_index(skip, 2) == 1 && rr_index(skip, 3) == 2 && rr_index(skip, 4) == 3);
            }
        }
    }
}

/// A delivery to a parked receiver that carries a capability `g` puts `g`
/// into the receiver's recorded grant slot when that is a real slot, and
/// changes no other slot; with no grant, or a slot out of range, the
/// receiver's table stays as it was.
pub proof fn lemma_delivery_grant_lands_in_recorded_slot(
    s0: Scheduler,
    s1: Scheduler,
    pid: u32,
    msg: Message,
    grant: Option<Cap>,
)
    requires
        1 <= pid <= MAX_PROCS,
        delivered(s0, s1, pid, msg, grant),
    ensures
        ({
            let i = pid - 1;
            let dst = s0.procs@[i].pending_grant_dst as int;
            let before = s0.procs@[i].caps@;
            let after = s1.procs@[i].caps@;
            &&& grant is Some && dst < CAP_SLOTS ==> after[dst] == grant.unwrap()
            &&& forall|k: int|
                0 <= k < CAP_SLOTS && !(grant is Some && k == dst) ==> #[trigger] after[k] == before[k]
        }),
{
}

/// A queue with no entry of `pid` is left as it is by dropping `pid`.
proof fn lemma_senders_without_absent(q: Seq<SendWait>, pid: u32)
    requires
        forall|k: int| 0 <= k < q.len() ==> (#[trigger] q[k]).pid != pid,
    ensures
        senders_without(q, pid) == q,
    decreases q.len(),
{
    reveal(Seq::filter);
    if q.len() > 0 {
        lemma_senders_without_absent(q.drop_last(), pid);
        assert(q.drop_last().push(q.last()) =~= q);
    }
}

/// A queue without `pid` is left as it is by dropping `pid`.
proof fn lemma_receivers_without_absent(q: Seq<u32>, pid: u32)
    requires
        forall|k: int| 0 <= k < q.len() ==> #[trigger] q[k] != pid,
    ensures
        receivers_without(q, pid) == q,
    decreases q.len(),
{
    reveal(Seq::filter);
    if q.len() > 0 {
        lemma_receivers_without_absent(q.drop_last(), pid);
        assert(q.drop_last().push(q.last()) =~= q);
    }
}

/// The running task is parked nowhere, so dropping its waits changes no
/// endpoint and no notification.
pub proof fn lemma_inv_after_exit(t0: EndpointTable, s0: Scheduler, t1: EndpointTable)
    requires
        ipc_inv(t0, s0),
        s0.current < MAX_PROCS,
        forall|e: int|
            0 <= e < MAX_ENDPOINTS ==> #[trigger] t1@[e] == dropped(t0@[e], s0.procs@[s0.current as int].pid),
        forall|n: int|
            0 <= n < MAX_NOTIFS ==> #[trigger] t1.nview()[n] == notif_dropped(
                t0.nview()[n],
                s0.procs@[s0.current as int].pid,
            ),
    ensures
        t1@ == t0@,
        t1.nview() == t0.nview(),
{
    let cur = s0.current as int;
    let pid = s0.procs@[cur].pid;
    assert(pid == cur + 1);
    lemma_no_phantom_waiters(t0, s0, cur);
    assert forall|e: int| 0 <= e < MAX_ENDPOINTS implies #[trigger] t1@[e] == t0@[e] by {
        lemma_senders_without_absent(t0@[e].senders, pid);
        lemma_receivers_without_absent(t0@[e].receivers, pid);
        assert(t1@[e] =~= t0@[e]);
    }
    assert(t1@ =~= t0@);
    assert(t1.nview() =~= t0.nview());
}

/// Round robin: the task picked after `cur` is the first ready one in
/// cyclic order after it (every task passed over is not ready); a task
/// that is not ready itself (the running one) is never picked, and "none"
/// comes only when no task at all is ready.
#[verifier::spinoff_prover]
#[verifier::rlimit(40)]
pub proof fn lemma_round_robin(procs: Seq<Process>, cur: int)
    requires
        procs.len() == MAX_PROCS,
        0 <= cur < MAX_PROCS,
    ensures
        pick_next_spec(procs, cur) < MAX_PROCS ==> exists|k: int|
            1 <= k <= MAX_PROCS && #[trigger] rr_index(cur, k) == pick_next_spec(procs, cur) && forall|k2: int|
                1 <= k2 < k ==> procs[#[trigger] rr_index(cur, k2)].state != State::Ready,
        procs[cur].state != State::Ready ==> pick_next_spec(procs, cur) != cur,
        (exists|i: int| 0 <= i < MAX_PROCS && #[trigger] procs[i].state == State::Ready) ==> pick_next_spec(
            procs,
            cur,
        ) < MAX_PROCS,
{
    lemma_pick_next_ready(procs, cur);
    reveal_with_fuel(first_ready_from, 5);
    let r = pick_next_spec(procs, cur);
    if r < MAX_PROCS {
        if procs[rr_index(cur, 1)].state == State::Ready {
            assert(rr_index(cur, 1) == r);
        } else if procs[rr_index(cur, 2)].state == State::Ready {
            assert(rr_index(cur, 2) == r);
        } else if procs[rr_index(cur, 3)].state == State::Ready {
            assert(rr_index(cur, 3) == r);
        } else {
            assert(rr_index(cur, 4) == r);
        }
    }
}

} // verus!
