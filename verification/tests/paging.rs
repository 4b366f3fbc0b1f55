use lib::mm::{self,
    init, new_user_pt, satp_for, PageTable, PhysMem, KERNEL_MAP_TABLES, PAGE_SIZE, PHYS_END, PROT_RW,
    PROT_RWX, PTE_U,
};

/// the Sv39 walk of `va` from `root`, as the hardware does it.
fn walk(mem: &PhysMem, root: usize, va: u64) -> Option<u64> {
    let mut t = root;
    for level in [2u64, 1] {
        let idx = ((va >> (12 + 9 * level)) & 0x1ff) as usize;
        let e = mem.table_at(t)?.entry(idx);
        if e & 1 == 0 {
            return None;
        }
        t = ((e >> 10) << 12) as usize;
    }
    let e = mem.table_at(t)?.entry(((va >> 12) & 0x1ff) as usize);
    if e & 1 == 0 { None } else { Some(e) }
}

fn leaf(pa: u64, perm: u64) -> u64 {
    ((pa >> 12) << 10) | perm | 1
}

#[test]
fn allocator_starts_page_aligned_above_the_kernel() {
    let m = PhysMem::init_alloc(0x8020_1234);
    assert_eq!(m.next_free(), 0x8020_2000);
    let m = PhysMem::init_alloc(0x8020_2000);
    assert_eq!(m.next_free(), 0x8020_2000);
}

#[test]
fn bump_allocation_and_exhaustion() {
    let mut m = PhysMem::init_alloc(PHYS_END - 2 * PAGE_SIZE);
    assert_eq!(m.alloc_page(), Some(PHYS_END - 2 * PAGE_SIZE));
    assert_eq!(m.alloc_page(), Some(PHYS_END - PAGE_SIZE));
    assert_eq!(m.alloc_page(), None);
    assert_eq!(m.next_free(), PHYS_END);
}

#[test]
fn allocator_above_phys_end_hands_out_nothing() {
    let mut m = PhysMem::init_alloc(PHYS_END + 123);
    assert_eq!(m.alloc_page(), None);
}

#[test]
fn zeroed_table_is_all_zero() {
    let mut m = PhysMem::init_alloc(0x8020_0000);
    let a = PageTable::zeroed(&mut m);
    assert_eq!(a, 0x8020_0000);
    let t = m.table_at(a).unwrap();
    assert!((0..512).all(|i| t.entry(i) == 0));
    // a data page holds no table.
    let d = m.alloc_page().unwrap();
    assert!(m.table_at(d).is_none());
}

#[test]
fn map_then_walk() {
    let mut m = PhysMem::init_alloc(0x8020_0000);
    let root = PageTable::zeroed(&mut m);
    PageTable::map(&mut m, root, 0x4000_0000, 0x8030_0000, PROT_RWX | PTE_U);
    assert_eq!(walk(&m, root, 0x4000_0000), Some(leaf(0x8030_0000, PROT_RWX | PTE_U)));
    assert_eq!(walk(&m, root, 0x4000_1000), None);
    // root + two directories.
    assert_eq!(m.next_free(), 0x8020_0000 + 3 * PAGE_SIZE);
    // a second page in the same 2 MiB region allocates nothing new.
    PageTable::map(&mut m, root, 0x4000_1000, 0x8031_0000, PROT_RW);
    assert_eq!(m.next_free(), 0x8020_0000 + 3 * PAGE_SIZE);
    assert_eq!(walk(&m, root, 0x4000_1000), Some(leaf(0x8031_0000, PROT_RW)));
    assert_eq!(walk(&m, root, 0x4000_0000), Some(leaf(0x8030_0000, PROT_RWX | PTE_U)));
    // remapping overwrites.
    PageTable::map(&mut m, root, 0x4000_0000, 0x8040_0000, PROT_RW);
    assert_eq!(walk(&m, root, 0x4000_0000), Some(leaf(0x8040_0000, PROT_RW)));
    // another 2 MiB region: one new level-0 table.
    PageTable::map(&mut m, root, 0x4020_0000, 0x8041_0000, PROT_RW);
    assert_eq!(m.next_free(), 0x8020_0000 + 4 * PAGE_SIZE);
}

#[test]
fn identity_rounds_out_to_whole_pages() {
    let mut m = PhysMem::init_alloc(0x8020_0000);
    let root = PageTable::zeroed(&mut m);
    PageTable::identity(&mut m, root, 0x1000_0ff0, 0x20, PROT_RW);
    assert_eq!(walk(&m, root, 0x1000_0000), Some(leaf(0x1000_0000, PROT_RW)));
    assert_eq!(walk(&m, root, 0x1000_1000), Some(leaf(0x1000_1000, PROT_RW)));
    assert_eq!(walk(&m, root, 0x1000_2000), None);
    assert_eq!(walk(&m, root, 0x0fff_f000), None);
}

#[test]
fn kernel_map_takes_seventy_tables() {
    let (m, root) = init(0x8020_0000);
    assert_eq!(root, 0x8020_0000);
    assert_eq!(m.next_free(), 0x8020_0000 + KERNEL_MAP_TABLES * PAGE_SIZE);
    assert_eq!(KERNEL_MAP_TABLES, 70);
}

#[test]
fn kernel_map_translations() {
    let (m, root) = init(0x8020_0000);
    assert_eq!(walk(&m, root, 0x1000_0000), Some(leaf(0x1000_0000, PROT_RW)));
    assert_eq!(walk(&m, root, 0x0c00_0000), Some(leaf(0x0c00_0000, PROT_RW)));
    assert_eq!(walk(&m, root, 0x0c3f_f000), Some(leaf(0x0c3f_f000, PROT_RW)));
    assert_eq!(walk(&m, root, 0x8000_0000), Some(leaf(0x8000_0000, PROT_RWX)));
    assert_eq!(walk(&m, root, 0x8020_0000), Some(leaf(0x8020_0000, PROT_RWX)));
    assert_eq!(walk(&m, root, 0x87ff_f000), Some(leaf(0x87ff_f000, PROT_RWX)));
    assert_eq!(walk(&m, root, 0x8800_0000), None);
    assert_eq!(walk(&m, root, 0x1000_1000), None);
    assert_eq!(walk(&m, root, 0x0c40_0000), None);
    assert_eq!(walk(&m, root, 0x4000_0000), None);
    assert_eq!(walk(&m, root, 0), None);
}

#[test]
fn user_table_repeats_the_kernel_map() {
    let (mut m, kroot) = init(0x8020_0000);
    let before = m.next_free();
    let u = new_user_pt(&mut m);
    assert_eq!(u, before);
    assert_eq!(m.next_free(), before + 70 * PAGE_SIZE);
    for va in [0x1000_0000u64, 0x0c20_0000, 0x8010_0000] {
        assert_eq!(walk(&m, u, va), walk(&m, kroot, va));
    }
}

#[test]
fn satp_selects_sv39_and_root() {
    assert_eq!(satp_for(0x8020_0000), 0x8000_0000_0008_0200);
    assert_eq!(satp_for(0x8020_0000) >> 60, 8);
}

#[test]
fn free_page_count_tracks_allocation() {
    let mut m = PhysMem::init_alloc(0x8780_0000);
    assert_eq!(m.base(), 0x8780_0000);
    assert_eq!(m.free_page_count(), 0x80_0000 / PAGE_SIZE);
    m.alloc_page();
    assert_eq!(m.free_page_count(), 0x80_0000 / PAGE_SIZE - 1);
    let m = PhysMem::init_alloc(PHYS_END + PAGE_SIZE);
    assert_eq!(m.free_page_count(), 0);
}

#[test]
fn image_page_counts() {
    // empty image: just the stack, under a fresh root slot (two tables).
    assert_eq!(mm::image_pages_needed_for(0), 4 + 2);
    // one page: code page, two tables, stack and its level-0 table.
    assert_eq!(mm::image_pages_needed_for(1), 1 + 2 + 4 + 1);
    assert_eq!(mm::image_pages_needed_for(4096), 8);
    assert_eq!(mm::image_pages_needed_for(4097), 9);
    // 513 pages need a second level-0 table.
    assert_eq!(mm::image_pages_needed_for(513 * 4096), 513 + 3 + 4 + 1);
    // beyond 4096 pages the code reaches the stack's level-0 table.
    assert_eq!(mm::image_pages_needed_for(4097 * 4096), 4097 + 2 + 8 + 4);
}

#[test]
fn user_image_mapping() {
    let (mut m, kpt) = init(0x8020_0000);
    let u = new_user_pt(&mut m);
    let before = m.next_free();
    let (code, stack) = mm::map_user_image(&mut m, u, &vec![0u8; 5000]);
    assert_eq!(m.next_free(), before + mm::image_pages_needed_for(5000) * PAGE_SIZE);
    assert_eq!(code.len(), 2);
    assert_eq!(stack.len(), 4);
    assert_eq!(walk(&m, u, 0x4000_0000), Some(leaf(code[0] as u64, PROT_RWX | PTE_U)));
    assert_eq!(walk(&m, u, 0x4000_1000), Some(leaf(code[1] as u64, PROT_RWX | PTE_U)));
    assert_eq!(walk(&m, u, 0x4000_2000), None);
    for (i, &pa) in stack.iter().enumerate() {
        assert_eq!(walk(&m, u, 0x4100_0000 + (i as u64) * 4096), Some(leaf(pa as u64, PROT_RW | PTE_U)));
    }
    assert_eq!(walk(&m, u, 0x4100_4000), None);
    // the kernel's own table is untouched.
    assert_eq!(walk(&m, kpt, 0x4000_0000), None);
    assert_eq!(walk(&m, u, 0x8000_0000), Some(leaf(0x8000_0000, PROT_RWX)));
}

#[test]
fn first_task_in_the_kernel_table() {
    let (mut m, kpt) = init(0x8020_0000);
    let mut first = lib::proc::Process::default();
    let ft = lib::proc::run_first(&mut first, &mut m, kpt, &[0u8; 16], 1 << 8 | 1 << 1);
    assert_eq!(first.user_entry, 0x4000_0000);
    assert_eq!(first.user_sp, 0x4100_4000);
    assert_eq!(ft.user_sp, 0x4100_4000);
    // SPP cleared, SPIE and SUM set, SIE kept.
    assert_eq!(ft.sstatus, (1 << 1) | (1 << 5) | (1 << 18));
    assert_eq!(ft.code_pages.len(), 1);
    assert_eq!(walk(&m, kpt, 0x4000_0000), Some(leaf(ft.code_pages[0] as u64, PROT_RWX | PTE_U)));
}

#[test]
fn spawning_leaves_the_kernel_table_alone() {
    let (mut m, kroot) = init(0x8020_0000);
    let probes = [0x1000_0000u64, 0x0c00_0000, 0x0c20_0000, 0x8000_0000, 0x8020_0000, 0x87ff_f000, 0x4000_0000];
    let before: Vec<Option<u64>> = probes.iter().map(|&va| walk(&m, kroot, va)).collect();
    let mut s = lib::sched::Scheduler::new();
    let sp = s.spawn(&mut m, &vec![0u8; 5000], 0x8020_1000);
    assert_ne!(sp.pt, kroot);
    let after: Vec<Option<u64>> = probes.iter().map(|&va| walk(&m, kroot, va)).collect();
    assert_eq!(before, after);
    // the user image is visible only through the new table.
    assert_eq!(walk(&m, kroot, 0x4000_0000), None);
    assert!(walk(&m, sp.pt, 0x4000_0000).is_some());
}

#[test]
fn directory_entries_are_pointers_only() {
    // every valid entry above the leaf level, in the kernel map and in a
    // spawned task's table, has V set and none of R, W, X.
    let (mut m, kroot) = init(0x8020_0000);
    let mut s = lib::sched::Scheduler::new();
    let sp = s.spawn(&mut m, &vec![0u8; 5000], 0x8020_1000);
    for root in [kroot, sp.pt] {
        let mut dirs = 0;
        let rt = m.table_at(root).unwrap();
        for i in 0..512 {
            let e = rt.entry(i);
            if e & 1 == 0 {
                continue;
            }
            assert_eq!(e & 0xe, 0);
            dirs += 1;
            let l1 = m.table_at(((e >> 10) << 12) as usize).unwrap();
            for j in 0..512 {
                let e1 = l1.entry(j);
                if e1 & 1 != 0 {
                    assert_eq!(e1 & 0xe, 0);
                    dirs += 1;
                }
            }
        }
        assert!(dirs > 0);
    }
    // a fresh directory made by a single map has only V among its low bits.
    let mut m2 = PhysMem::init_alloc(0x8020_0000);
    let root = PageTable::zeroed(&mut m2);
    PageTable::map(&mut m2, root, 0x4000_0000, 0x8030_0000, PROT_RWX);
    let e = m2.table_at(root).unwrap().entry(1);
    assert_eq!(e & 0x3ff, 1);
}

#[test]
fn allocated_pages_are_zero() {
    let mut m = PhysMem::init_alloc(0x8020_0000);
    let p = m.alloc_page().unwrap();
    let d = m.data_at(p).unwrap();
    assert_eq!(d.len(), PAGE_SIZE);
    assert!(d.iter().all(|&b| b == 0));
    // a table page is no data page.
    let t = PageTable::zeroed(&mut m);
    assert!(m.data_at(t).is_none());
    assert!(m.data_at(p + 1).is_none());
    assert!(m.data_at(0x9000_0000).is_none());
}

#[test]
fn write_page_replaces_the_contents() {
    let mut m = PhysMem::init_alloc(0x8020_0000);
    let p = m.alloc_page().unwrap();
    let q = m.alloc_page().unwrap();
    m.write_page(p, vec![7u8; PAGE_SIZE]);
    assert!(m.data_at(p).unwrap().iter().all(|&b| b == 7));
    assert!(m.data_at(q).unwrap().iter().all(|&b| b == 0));
}

#[test]
fn image_pages_are_slices_then_zeros() {
    let blob: Vec<u8> = (0..5000u32).map(|i| (i % 251) as u8 + 1).collect();
    let p0 = mm::image_page_bytes(&blob, 0);
    assert_eq!(&p0[..], &blob[..4096]);
    let p1 = mm::image_page_bytes(&blob, 1);
    assert_eq!(&p1[..904], &blob[4096..]);
    assert!(p1[904..].iter().all(|&b| b == 0));
    assert_eq!(p1.len(), PAGE_SIZE);
    assert!(mm::image_page_bytes(&blob, 5).iter().all(|&b| b == 0));
}

#[test]
fn spawn_loads_the_image_and_zeroes_the_rest() {
    let blob: Vec<u8> = (0..5000u32).map(|i| (i % 251) as u8 + 1).collect();
    let (mut m, _kpt) = init(0x8020_0000);
    let mut s = lib::sched::Scheduler::new();
    let sp = s.spawn(&mut m, &blob, 0x8020_1000);
    let c0 = m.data_at(sp.code_pages[0]).unwrap();
    assert_eq!(&c0[..], &blob[..4096]);
    let c1 = m.data_at(sp.code_pages[1]).unwrap();
    assert_eq!(&c1[..904], &blob[4096..]);
    assert!(c1[904..].iter().all(|&b| b == 0));
    for &pa in sp.stack_pages.iter() {
        assert!(m.data_at(pa).unwrap().iter().all(|&b| b == 0));
    }
    let top = m.next_free();
    for k in 1..=4 {
        assert!(m.data_at(top - k * PAGE_SIZE).unwrap().iter().all(|&b| b == 0));
    }
}

#[test]
fn first_task_code_page_holds_the_binary() {
    let hello: [u8; 16] = [
        0x93, 0x08, 0x10, 0x00, 0x73, 0x00, 0x00, 0x00, 0x93, 0x08, 0x00, 0x00, 0x73, 0x00, 0x00, 0x00,
    ];
    let (mut m, kpt) = init(0x8020_0000);
    let mut first = lib::proc::Process::default();
    let ft = lib::proc::run_first(&mut first, &mut m, kpt, &hello, 0);
    assert_eq!(ft.code_pages.len(), 1);
    let page = m.data_at(ft.code_pages[0]).unwrap();
    assert_eq!(&page[..16], &hello[..]);
    assert!(page[16..].iter().all(|&b| b == 0));
    assert_eq!(walk(&m, kpt, 0x4000_0000), Some(leaf(ft.code_pages[0] as u64, PROT_RWX | PTE_U)));
}
