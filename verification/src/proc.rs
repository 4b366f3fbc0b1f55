//! The first user task: its image and stack go into the kernel page table,
//! and the task is entered with sret into u-mode.

use vstd::prelude::*;

use crate::mm::{
    fresh_data_pages, image_loaded, image_pages_needed, map_user_image, maps_kernel, pages_for, pt_wf, translate,
    user_translation, PhysMem, PAGE_SIZE, USER_CODE_VA, USER_STACK_PAGES, USER_STACK_VA,
};
use crate::trap::TrapFrame;

verus! {

pub const SSTATUS_SPP: u64 = 1 << 8;  // 0 = U, 1 = S

pub const SSTATUS_SPIE: u64 = 1 << 5;

pub const SSTATUS_SIE: u64 = 1 << 1;

pub const SSTATUS_SUM: u64 = 1 << 18;

pub struct Process {
    pub frame: TrapFrame,
    pub kstack_top: u64,
    pub user_entry: u64,
    pub user_sp: u64,
}

impl Default for Process {
    fn default() -> (p: Self)
        ensures
            p.frame.is_zeroed(),
            p.kstack_top == 0,
            p.user_entry == 0,
            p.user_sp == 0,
    {
        Process { frame: TrapFrame::default(), kstack_top: 0, user_entry: 0, user_sp: 0 }
    }
}

/// What entering the first task takes: the pages its image and stack went
/// onto (the image loaded into the code pages in order), the
/// user stack top, and the sstatus to install before sret.
pub struct FirstTask {
    pub code_pages: Vec<usize>,
    pub stack_pages: Vec<usize>,
    pub user_sp: u64,
    pub sstatus: u64,
}

/// sstatus for the drop to u-mode: SPP = 0 (return to U-mode), SPIE = 1
/// (interrupts back on after sret), SUM = 1 (kernel may touch user
/// pages); every other bit as it was.
pub open spec fn user_sstatus(sstatus_in: u64) -> u64 {
    (sstatus_in & !SSTATUS_SPP) | SSTATUS_SPIE | SSTATUS_SUM
}

/// The sstatus installed for sret returns to u-mode with interrupts
/// re-enabled and user memory reachable, and keeps every other bit.
pub proof fn lemma_user_sstatus(sstatus_in: u64)
    ensures
        user_sstatus(sstatus_in) & SSTATUS_SPP == 0,
        user_sstatus(sstatus_in) & SSTATUS_SPIE != 0,
        user_sstatus(sstatus_in) & SSTATUS_SUM != 0,
        user_sstatus(sstatus_in) & !(SSTATUS_SPP | SSTATUS_SPIE | SSTATUS_SUM) == sstatus_in & !(
        SSTATUS_SPP | SSTATUS_SPIE | SSTATUS_SUM),
{
    assert(SSTATUS_SPP == 0x100) by (bit_vector);
    assert(SSTATUS_SPIE == 0x20) by (bit_vector);
    assert(SSTATUS_SUM == 0x40000) by (bit_vector);
    assert(((sstatus_in & !0x100u64) | 0x20u64 | 0x40000u64) & 0x100u64 == 0
        && ((sstatus_in & !0x100u64) | 0x20u64 | 0x40000u64) & 0x20u64 != 0
        && ((sstatus_in & !0x100u64) | 0x20u64 | 0x40000u64) & 0x40000u64 != 0
        && ((sstatus_in & !0x100u64) | 0x20u64 | 0x40000u64) & !(0x100u64 | 0x20u64 | 0x40000u64)
        == sstatus_in & !(0x100u64 | 0x20u64 | 0x40000u64)) by (bit_vector);
}

/// Build the first user task in the kernel page table `kernel_pt`: map
/// and load the code pages of the image `blob` at USER_CODE_VA and the
/// user stack, record entry point and stack top in `first`, and compute
/// the sstatus for the sret into it (from the current `sstatus_in`).
pub fn run_first(
    first: &mut Process,
    mem: &mut PhysMem,
    kernel_pt: usize,
    blob: &[u8],
    sstatus_in: u64,
) -> (r: FirstTask)
    requires
        old(mem).wf(),
        maps_kernel(old(mem)@, kernel_pt as int),
        blob@.len() + PAGE_SIZE - 1 <= usize::MAX,
        old(mem).free_pages() >= image_pages_needed(pages_for(blob@.len() as int)),
    ensures
        final(first).user_entry == USER_CODE_VA,
        final(first).user_sp == USER_STACK_VA + USER_STACK_PAGES * PAGE_SIZE,
        r.user_sp == USER_STACK_VA + USER_STACK_PAGES * PAGE_SIZE,
        final(first).frame == old(first).frame,
        final(first).kstack_top == old(first).kstack_top,
        r.sstatus == user_sstatus(sstatus_in),
        final(mem).wf(),
        final(mem).spec_base() == old(mem).spec_base(),
        final(mem).spec_next_free() == old(mem).spec_next_free() + image_pages_needed(
            pages_for(blob@.len() as int),
        ) * PAGE_SIZE,
        r.code_pages@.len() == pages_for(blob@.len() as int),
        r.stack_pages@.len() == USER_STACK_PAGES,
        pt_wf(final(mem)@, kernel_pt as int),
        forall|x: u64|
            x % 4096 == 0 && x < 0x80_0000_0000 ==> #[trigger] translate(final(mem)@, kernel_pt as int, x)
                == user_translation(r.code_pages@, r.stack_pages@, x),
        fresh_data_pages(
            final(mem)@,
            r.code_pages@ + r.stack_pages@,
            old(mem).spec_next_free(),
            final(mem).spec_next_free(),
        ),
        image_loaded(old(mem).bytes(), final(mem).bytes(), blob@, r.code_pages@, r.stack_pages@),
{
    let (code, stack) = map_user_image(mem, kernel_pt, blob);
    let user_sp_top = USER_STACK_VA + (USER_STACK_PAGES * PAGE_SIZE) as u64;
    first.user_entry = USER_CODE_VA;
    first.user_sp = user_sp_top;
    let sstatus = (sstatus_in & !SSTATUS_SPP) | SSTATUS_SPIE | SSTATUS_SUM;
    FirstTask { code_pages: code, stack_pages: stack, user_sp: user_sp_top, sstatus }
}

} // verus!
