//! SBI (Supervisor Binary Interface) requests: shutdown and timer.

use vstd::prelude::*;

verus! {

/// reset extension "SRST".
pub const SRST: usize = 0x53525354;

/// timer extension "TIME".
pub const TIME: usize = 0x54494D45;

/// the registers of one SBI ecall: a7 = eid, a6 = fid, a0..a2 = args.
#[derive(Clone, Copy, PartialEq, Eq, Structural, Debug)]
pub struct SbiCall {
    pub eid: usize,
    pub fid: usize,
    pub a0: usize,
    pub a1: usize,
    pub a2: usize,
}

/// the request that schedules the next supervisor timer interrupt at
/// `stime_ticks`.
pub fn set_timer(stime_ticks: u64) -> (c: SbiCall)
    ensures
        c == (SbiCall { eid: TIME, fid: 0, a0: stime_ticks as usize, a1: 0, a2: 0 }),
{
    SbiCall { eid: TIME, fid: 0, a0: stime_ticks as usize, a1: 0, a2: 0 }
}

/// the system-reset request that shuts the machine down.
pub fn shutdown_request() -> (c: SbiCall)
    ensures
        c == (SbiCall { eid: SRST, fid: 0, a0: 0, a1: 0, a2: 0 }),
{
    SbiCall { eid: SRST, fid: 0, a0: 0, a1: 0, a2: 0 }
}

} // verus!
