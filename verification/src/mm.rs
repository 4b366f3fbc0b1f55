//! Memory management: a bump page allocator over physical memory above the
//! kernel image, and an Sv39 page-table builder.
//!
//! [`PhysMem`] holds the allocator state together with the contents of
//! every page that was handed out as a page table, keyed by its physical
//! address. The builder computes the exact words of each table; the
//! platform layer writes them to RAM and loads satp.

use vstd::prelude::*;

verus! {

pub const PAGE_SIZE: usize = 4096;

pub const PAGE_SHIFT: usize = 12;

pub const PTE_V: u64 = 1 << 0;

pub const PTE_R: u64 = 1 << 1;

pub const PTE_W: u64 = 1 << 2;

pub const PTE_X: u64 = 1 << 3;

pub const PTE_U: u64 = 1 << 4;

pub const PTE_G: u64 = 1 << 5;

pub const PROT_R: u64 = PTE_R;

pub const PROT_RW: u64 = PTE_R | PTE_W;

pub const PROT_RX: u64 = PTE_R | PTE_X;

pub const PROT_RWX: u64 = PTE_R | PTE_W | PTE_X;

pub const SATP_SV39: u64 = 8u64 << 60;

/// physical memory ends at 0x80000000 + RAM_SIZE (qemu-virt: 128 MiB).
pub const PHYS_END: usize = 0x8000_0000 + 128 * 1024 * 1024;

/// entries per table.
pub const PT_ENTRIES: usize = 512;

/// the page address `x` rounded up to a page boundary.
pub open spec fn align_up(x: int) -> int {
    ((x + PAGE_SIZE - 1) / PAGE_SIZE as int) * PAGE_SIZE
}

/// the page address `x` rounded down to a page boundary.
pub open spec fn align_down(x: int) -> int {
    (x / PAGE_SIZE as int) * PAGE_SIZE
}

/// A table entry that points at the next-level table at `a`.
pub open spec fn ptr_pte(a: u64) -> u64 {
    ((a >> 12u64) << 10u64) | PTE_V
}

/// A leaf entry mapping to the frame at `pa` with permission bits `perm`.
pub open spec fn leaf_pte(pa: u64, perm: u64) -> u64 {
    ((pa >> 12u64) << 10u64) | perm | PTE_V
}

/// The physical address a table entry points at.
pub open spec fn pte_target(e: u64) -> u64 {
    (e >> 10u64) << 12u64
}

pub open spec fn pte_valid(e: u64) -> bool {
    e & PTE_V != 0
}

/// A directory entry as this kernel writes it: of the ten flag bits only
/// V is set (no R, W or X, so Sv39 follows it to the next table; and none
/// of U, G, A, D, which Sv39 reserves on non-leaf entries).
pub open spec fn is_dir_entry(e: u64) -> bool {
    e & 0x3ff == 1
}

/// the Sv39 virtual page number of `va` at `level` (0, 1 or 2).
pub open spec fn vpn(va: u64, level: int) -> int {
    if level == 2 {
        ((va >> 30u64) & 0x1ffu64) as int
    } else if level == 1 {
        ((va >> 21u64) & 0x1ffu64) as int
    } else {
        ((va >> 12u64) & 0x1ffu64) as int
    }
}

/// Each of the three Sv39 page-number fields of an address indexes a table.
pub proof fn lemma_vpn_bounds(va: u64)
    ensures
        0 <= vpn(va, 2) < 512,
        0 <= vpn(va, 1) < 512,
        0 <= vpn(va, 0) < 512,
{
    assert((va >> 30u64) & 0x1ffu64 < 512) by (bit_vector);
    assert((va >> 21u64) & 0x1ffu64 < 512) by (bit_vector);
    assert((va >> 12u64) & 0x1ffu64 < 512) by (bit_vector);
}

/// A pointer entry to a page-aligned table below 2^44 is valid and leads
/// back to that table.
pub proof fn lemma_ptr_pte(a: u64)
    requires
        a % 4096 == 0,
        a < 0x1000_0000_0000,
    ensures
        pte_valid(ptr_pte(a)),
        pte_target(ptr_pte(a)) == a,
        is_dir_entry(ptr_pte(a)),
{
    assert(PTE_V == 1) by (bit_vector);
    assert((((a >> 12u64) << 10u64) | 1u64) & 0x3ffu64 == 1u64) by (bit_vector);
    assert(a % 4096 == 0 && a < 0x1000_0000_0000 ==> (((a >> 12u64) << 10u64) | 1u64) & 1u64 != 0
        && (((((a >> 12u64) << 10u64) | 1u64) >> 10u64) << 12u64) == a) by (bit_vector);
}

/// A leaf entry always has its valid bit set.
pub proof fn lemma_leaf_pte_valid(pa: u64, perm: u64)
    ensures
        pte_valid(leaf_pte(pa, perm)),
{
    assert(PTE_V == 1) by (bit_vector);
    assert((((pa >> 12u64) << 10u64) | perm | 1u64) & 1u64 != 0) by (bit_vector);
}

#[derive(Clone, Copy)]
pub struct PageTable {
    entries: [u64; 512],
}

impl PageTable {
    pub closed spec fn view(&self) -> Seq<u64> {
        self.entries@
    }

    /// the entry at `i`.
    pub fn entry(&self, i: usize) -> (e: u64)
        requires
            i < PT_ENTRIES,
        ensures
            e == self@[i as int],
    {
        self.entries[i]
    }
}

/// The allocator state and the contents of the pages it handed out: a
/// page table, or (for a page given out as data) its bytes.
pub struct PhysMem {
    /// first page the allocator handed out.
    base: usize,
    /// next page to hand out.
    next_free: usize,
    /// one record per handed-out page: the table it holds, or nothing for
    /// a page given out as data.
    frames: Vec<Option<PageTable>>,
    /// one record per handed-out page: the bytes of a data page (unused
    /// for a table page).
    data: Vec<Vec<u8>>,
}

/// a page of zero bytes.
pub open spec fn zero_page() -> Seq<u8> {
    Seq::new(PAGE_SIZE as nat, |i: int| 0u8)
}

/// Page `i` of an image `blob`: its bytes from offset `i * PAGE_SIZE`, then
/// zeros past the end of the image.
pub open spec fn image_page(blob: Seq<u8>, i: int) -> Seq<u8> {
    Seq::new(
        PAGE_SIZE as nat,
        |k: int|
            if i * PAGE_SIZE + k < blob.len() {
                blob[i * PAGE_SIZE + k]
            } else {
                0u8
            },
    )
}

/// a page of 512 zero entries.
pub open spec fn zero_table() -> Seq<u64> {
    Seq::new(512, |i: int| 0u64)
}

impl PhysMem {
    pub closed spec fn spec_base(&self) -> int {
        self.base as int
    }

    pub closed spec fn spec_next_free(&self) -> int {
        self.next_free as int
    }

    pub closed spec fn frame_index(&self, a: int) -> int {
        (a - self.base) / PAGE_SIZE as int
    }

    pub closed spec fn holds_table(&self, a: int) -> bool {
        &&& self.base <= a < self.next_free
        &&& (a - self.base) % PAGE_SIZE as int == 0
        &&& self.frames@[self.frame_index(a)] is Some
    }

    pub closed spec fn holds_data(&self, a: int) -> bool {
        &&& self.base <= a < self.next_free
        &&& (a - self.base) % PAGE_SIZE as int == 0
        &&& self.frames@[self.frame_index(a)] is None
    }

    /// The bytes of the data pages among the handed-out pages, by physical
    /// address.
    pub closed spec fn bytes(&self) -> Map<int, Seq<u8>> {
        Map::new(|a: int| self.holds_data(a), |a: int| self.data@[self.frame_index(a)]@)
    }

    /// The page tables held in handed-out pages, by physical address.
    pub closed spec fn view(&self) -> Map<int, Seq<u64>> {
        Map::new(
            |a: int| self.holds_table(a),
            |a: int| self.frames@[self.frame_index(a)].unwrap()@,
        )
    }

    pub closed spec fn inv(&self) -> bool {
        &&& self.base % PAGE_SIZE == 0
        &&& self.next_free % PAGE_SIZE == 0
        &&& self.base <= self.next_free
        &&& self.frames@.len() * PAGE_SIZE == self.next_free - self.base
        &&& self.data@.len() == self.frames@.len()
        &&& forall|k: int|
            0 <= k < self.frames@.len() && self.frames@[k] is None ==> (#[trigger] self.data@[k])@.len()
                == PAGE_SIZE
    }

    /// pages still available below `PHYS_END`.
    pub open spec fn free_pages(&self) -> int {
        if self.spec_next_free() <= PHYS_END {
            (PHYS_END - self.spec_next_free()) / PAGE_SIZE as int
        } else {
            0
        }
    }

    /// allocator well-formedness: page-aligned bounds, every table sits in
    /// a page-aligned handed-out page.
    pub open spec fn wf(&self) -> bool {
        &&& self.inv()
        &&& self.spec_base() >= RAM_BASE
        &&& self.spec_base() % PAGE_SIZE as int == 0
        &&& self.spec_next_free() % PAGE_SIZE as int == 0
        &&& self.spec_base() <= self.spec_next_free()
        &&& forall|a: int|
            #[trigger] self@.contains_key(a) ==> self.spec_base() <= a < self.spec_next_free() && a
                % PAGE_SIZE as int == 0 && self@[a].len() == PT_ENTRIES
        &&& forall|a: int|
            #[trigger] self.bytes().contains_key(a) ==> self.spec_base() <= a < self.spec_next_free() && a
                % PAGE_SIZE as int == 0 && self.bytes()[a].len() == PAGE_SIZE && !self@.contains_key(a)
    }

    /// Every handed-out page that holds no table is a data page.
    pub proof fn lemma_data_page(&self, a: int)
        requires
            self.wf(),
            self.spec_base() <= a < self.spec_next_free(),
            a % PAGE_SIZE as int == 0,
            !self@.contains_key(a),
        ensures
            self.bytes().contains_key(a),
    {
        assert((a - self.base) % PAGE_SIZE as int == 0) by (nonlinear_arith)
            requires
                a % 4096 == 0,
                self.base % 4096 == 0,
        ;
        assert(0 <= self.frame_index(a) < self.frames@.len()) by (nonlinear_arith)
            requires
                self.base <= a < self.next_free,
                self.frames@.len() * 4096 == self.next_free - self.base,
                self.frame_index(a) == (a - self.base) / 4096,
        ;
    }

    /// The allocator invariant, with a base in RAM, is well-formedness.
    pub proof fn lemma_wf(&self)
        requires
            self.inv(),
            self.spec_base() >= RAM_BASE,
        ensures
            self.wf(),
    {
        assert forall|a: int| #[trigger] self@.contains_key(a) implies self.spec_base() <= a
            < self.spec_next_free() && a % PAGE_SIZE as int == 0 && self@[a].len() == PT_ENTRIES by {
        }
        assert forall|a: int| #[trigger] self.bytes().contains_key(a) implies self.spec_base() <= a
            < self.spec_next_free() && a % PAGE_SIZE as int == 0 && self.bytes()[a].len() == PAGE_SIZE
            && !self@.contains_key(a) by {
            assert(0 <= self.frame_index(a) < self.frames@.len()) by (nonlinear_arith)
                requires
                    self.base <= a < self.next_free,
                    self.frames@.len() * 4096 == self.next_free - self.base,
                    self.frame_index(a) == (a - self.base) / 4096,
            ;
            assert(a % 4096 == 0) by (nonlinear_arith)
                requires
                    (a - self.base) % 4096 == 0,
                    self.base % 4096 == 0,
            ;
        }
    }

    /// allocator start: the first page boundary at or above the end of the
    /// kernel image (which lives in RAM).
    pub fn init_alloc(kernel_end: usize) -> (m: Self)
        requires
            kernel_end + PAGE_SIZE - 1 <= usize::MAX,
            kernel_end >= RAM_BASE,
        ensures
            m.wf(),
            m.spec_base() == align_up(kernel_end as int),
            m.spec_next_free() == align_up(kernel_end as int),
            m@ == Map::<int, Seq<u64>>::empty(),
            m.bytes() == Map::<int, Seq<u8>>::empty(),
    {
        let sum = kernel_end + (PAGE_SIZE - 1);
        let start = sum & !(PAGE_SIZE - 1);
        assert(sum & !4095usize == (sum / 4096) * 4096) by (bit_vector);
        let m = PhysMem { base: start, next_free: start, frames: Vec::new(), data: Vec::new() };
        proof {
            m.lemma_wf();
            assert(m@ =~= Map::<int, Seq<u64>>::empty());
            assert(m.bytes() =~= Map::<int, Seq<u8>>::empty());
        }
        m
    }

    /// next page to hand out.
    pub fn next_free(&self) -> (n: usize)
        ensures
            n == self.spec_next_free(),
    {
        self.next_free
    }

    /// pages still available below `PHYS_END`.
    pub fn free_page_count(&self) -> (n: usize)
        requires
            self.wf(),
        ensures
            n == self.free_pages(),
    {
        if self.next_free <= PHYS_END {
            (PHYS_END - self.next_free) / PAGE_SIZE
        } else {
            0
        }
    }

    /// first page the allocator handed out.
    pub fn base(&self) -> (b: usize)
        ensures
            b == self.spec_base(),
    {
        self.base
    }

    /// the table held at physical address `a`, if any.
    pub fn table_at(&self, a: usize) -> (t: Option<&PageTable>)
        requires
            self.wf(),
        ensures
            match t {
                Some(t) => self@.contains_key(a as int) && t@ == self@[a as int],
                None => !self@.contains_key(a as int),
            },
    {
        if a < self.base || a >= self.next_free || (a - self.base) % PAGE_SIZE != 0 {
            return None;
        }
        let k = (a - self.base) / PAGE_SIZE;
        match &self.frames[k] {
            Some(t) => Some(t),
            None => None,
        }
    }

    /// hand out the next page, or nothing once physical memory is used up.
    pub fn alloc_page(&mut self) -> (r: Option<usize>)
        requires
            old(self).wf(),
        ensures
            final(self).wf(),
            final(self)@ == old(self)@,
            final(self).spec_base() == old(self).spec_base(),
            old(self).free_pages() >= 1 ==> r == Some(old(self).spec_next_free() as usize)
                && final(self).spec_next_free() == old(self).spec_next_free() + PAGE_SIZE
                && final(self).bytes() == old(self).bytes().insert(old(self).spec_next_free(), zero_page()),
            old(self).free_pages() < 1 ==> r is None && final(self).spec_next_free() == old(
                self,
            ).spec_next_free() && final(self).bytes() == old(self).bytes(),
    {
        if self.next_free > PHYS_END - PAGE_SIZE {
            return None;
        }
        let p = self.next_free;
        let z = zero_bytes();
        self.next_free = self.next_free + PAGE_SIZE;
        self.frames.push(None);
        self.data.push(z);
        proof {
            let n0 = old(self).frames@.len();
            assert(self.frame_index(p as int) == n0) by (nonlinear_arith)
                requires
                    self.frame_index(p as int) == (p - self.base) / 4096,
                    n0 * 4096 == p - self.base,
            ;
            assert forall|b: int| #[trigger] self.bytes().contains_key(b) <==> old(self).bytes().insert(
                p as int,
                zero_page(),
            ).contains_key(b) by {
                if self.holds_data(b) && b != p {
                    assert(self.frame_index(b) < n0) by (nonlinear_arith)
                        requires
                            self.base <= b < p,
                            n0 * 4096 == p - self.base,
                            self.frame_index(b) == (b - self.base) / 4096,
                    ;
                }
                if old(self).holds_data(b) {
                    let ob = old(self).base as int;
                    let oi = old(self).frame_index(b);
                    assert(oi < n0) by (nonlinear_arith)
                        requires
                            ob <= b < p,
                            n0 * 4096 == p - ob,
                            oi == (b - ob) / 4096,
                    ;
                    assert(self.frame_index(b) == oi);
                }
            }
            assert forall|b: int| #[trigger] self.bytes().contains_key(b) implies self.bytes()[b] == old(self).bytes().insert(
                p as int,
                zero_page(),
            )[b] by {
                if b != p {
                    assert(self.frame_index(b) < n0) by (nonlinear_arith)
                        requires
                            self.base <= b < p,
                            n0 * 4096 == p - self.base,
                            self.frame_index(b) == (b - self.base) / 4096,
                    ;
                }
            }
            assert(self.bytes() =~= old(self).bytes().insert(p as int, zero_page()));
            assert forall|k: int|
                0 <= k < self.frames@.len() && self.frames@[k] is None implies (#[trigger] self.data@[k])@.len()
                    == PAGE_SIZE by {
                if k < n0 {
                    assert(self.data@[k] == old(self).data@[k]);
                }
            }
            self.lemma_wf();
            assert forall|a: int| #[trigger] self@.contains_key(a) <==> old(self)@.contains_key(a) by {
                if self.holds_table(a) {
                    assert(self.frame_index(a) < old(self).frames@.len());
                }
            }
            assert(self@ =~= old(self)@);
        }
        Some(p)
    }

    /// entry `i` of the table at `a`.
    fn read_entry(&self, a: usize, i: usize) -> (e: u64)
        requires
            self.wf(),
            self@.contains_key(a as int),
            i < PT_ENTRIES,
        ensures
            e == self@[a as int][i as int],
    {
        let k = (a - self.base) / PAGE_SIZE;
        match &self.frames[k] {
            Some(t) => t.entries[i],
            None => 0,
        }
    }

    /// set entry `i` of the table at `a` to `v`.
    fn write_entry(&mut self, a: usize, i: usize, v: u64)
        requires
            old(self).wf(),
            old(self)@.contains_key(a as int),
            i < PT_ENTRIES,
        ensures
            final(self).wf(),
            final(self)@ == old(self)@.insert(a as int, old(self)@[a as int].update(i as int, v)),
            final(self).bytes() == old(self).bytes(),
            final(self).spec_base() == old(self).spec_base(),
            final(self).spec_next_free() == old(self).spec_next_free(),
    {
        let k = (a - self.base) / PAGE_SIZE;
        let mut t = match &self.frames[k] {
            Some(t) => *t,
            None => { return; },
        };
        t.entries[i] = v;
        self.frames.set(k, Some(t));
        proof {
            assert(self.bytes() =~= old(self).bytes());
            assert forall|j: int|
                0 <= j < self.frames@.len() && self.frames@[j] is None implies (#[trigger] self.data@[j])@.len()
                    == PAGE_SIZE by {
                assert(old(self).frames@[j] is None);
            }
            self.lemma_wf();
            assert forall|b: int| #[trigger] self@.contains_key(b) <==> old(self)@.insert(
                a as int,
                old(self)@[a as int].update(i as int, v),
            ).contains_key(b) by {
                if old(self).holds_table(b) && b != a {
                    assert(self.frame_index(b) != k);
                }
                if self.holds_table(b) && b != a {
                    assert(self.frame_index(b) != k);
                }
            }
            assert forall|b: int| #[trigger] self@.contains_key(b) implies self@[b] == old(self)@.insert(
                a as int,
                old(self)@[a as int].update(i as int, v),
            )[b] by {
                if b != a {
                    assert(self.frame_index(b) != k);
                }
            }
            assert(self@ =~= old(self)@.insert(a as int, old(self)@[a as int].update(i as int, v)));
        }
    }
}

/// a fresh page of zero bytes.
fn zero_bytes() -> (z: Vec<u8>)
    ensures
        z@ == zero_page(),
{
    let mut z: Vec<u8> = Vec::new();
    let mut i: usize = 0;
    while i < PAGE_SIZE
        invariant
            i <= PAGE_SIZE,
            z@ == Seq::new(i as nat, |k: int| 0u8),
        decreases PAGE_SIZE - i,
    {
        z.push(0u8);
        i += 1;
        assert(z@ =~= Seq::new(i as nat, |k: int| 0u8));
    }
    assert(z@ =~= zero_page());
    z
}

/// The bytes of page `i` of the image `blob`: its slice from offset
/// `i * PAGE_SIZE`, then zeros past the end of the image.
pub fn image_page_bytes(blob: &[u8], i: usize) -> (page: Vec<u8>)
    requires
        i * PAGE_SIZE + PAGE_SIZE <= usize::MAX,
    ensures
        page@ == image_page(blob@, i as int),
{
    let off = i * PAGE_SIZE;
    let mut page: Vec<u8> = Vec::new();
    let mut k: usize = 0;
    while k < PAGE_SIZE
        invariant
            k <= PAGE_SIZE,
            off == i * PAGE_SIZE,
            off + PAGE_SIZE <= usize::MAX,
            page@ == image_page(blob@, i as int).subrange(0, k as int),
        decreases PAGE_SIZE - k,
    {
        let b = if off + k < blob.len() {
            blob[off + k]
        } else {
            0u8
        };
        page.push(b);
        k += 1;
        assert(page@ =~= image_page(blob@, i as int).subrange(0, k as int));
    }
    assert(page@ =~= image_page(blob@, i as int));
    page
}

impl PhysMem {
    /// the bytes of the data page at physical address `a`, if it is one.
    pub fn data_at(&self, a: usize) -> (d: Option<&Vec<u8>>)
        requires
            self.wf(),
        ensures
            match d {
                Some(d) => self.bytes().contains_key(a as int) && d@ == self.bytes()[a as int],
                None => !self.bytes().contains_key(a as int),
            },
    {
        if a < self.base || a >= self.next_free || (a - self.base) % PAGE_SIZE != 0 {
            return None;
        }
        let k = (a - self.base) / PAGE_SIZE;
        match &self.frames[k] {
            Some(_) => None,
            None => Some(&self.data[k]),
        }
    }

    /// put `content` into the data page at `a`.
    pub fn write_page(&mut self, a: usize, content: Vec<u8>)
        requires
            old(self).wf(),
            old(self).bytes().contains_key(a as int),
            content@.len() == PAGE_SIZE,
        ensures
            final(self).wf(),
            final(self)@ == old(self)@,
            final(self).bytes() == old(self).bytes().insert(a as int, content@),
            final(self).spec_base() == old(self).spec_base(),
            final(self).spec_next_free() == old(self).spec_next_free(),
    {
        let ghost c = content@;
        let k = (a - self.base) / PAGE_SIZE;
        self.data.set(k, content);
        proof {
            assert(self@ =~= old(self)@);
            assert forall|b: int| #[trigger] self.bytes().contains_key(b) implies self.bytes()[b] == old(self).bytes().insert(
                a as int,
                c,
            )[b] by {
                if b != a {
                    assert(self.frame_index(b) != k) by (nonlinear_arith)
                        requires
                            self.frame_index(b) == (b - self.base) / 4096,
                            k == (a - self.base) / 4096,
                            (b - self.base) % 4096 == 0,
                            (a - self.base) % 4096 == 0,
                            b != a,
                    ;
                }
            }
            assert(self.bytes() =~= old(self).bytes().insert(a as int, c));
            assert forall|j: int|
                0 <= j < self.frames@.len() && self.frames@[j] is None implies (#[trigger] self.data@[j])@.len()
                    == PAGE_SIZE by {
                if j != k {
                    assert(self.data@[j] == old(self).data@[j]);
                }
            }
            self.lemma_wf();
        }
    }
}

impl PageTable {
    /// allocate a page and hold an all-zero table in it; returns its
    /// physical address.
    pub fn zeroed(mem: &mut PhysMem) -> (a: usize)
        requires
            old(mem).wf(),
            old(mem).free_pages() >= 1,
        ensures
            final(mem).wf(),
            a == old(mem).spec_next_free(),
            final(mem)@ == old(mem)@.insert(a as int, zero_table()),
            final(mem).bytes() == old(mem).bytes(),
            final(mem).spec_base() == old(mem).spec_base(),
            final(mem).spec_next_free() == old(mem).spec_next_free() + PAGE_SIZE,
    {
        let ghost m0 = *mem;
        let p = match mem.alloc_page() {
            Some(p) => p,
            None => { return 0; },
        };
        let ghost m1 = *mem;
        let t = PageTable { entries: [0u64; 512] };
        let k = (p - mem.base) / PAGE_SIZE;
        mem.frames.set(k, Some(t));
        proof {
            assert(m1.bytes() == m0.bytes().insert(p as int, zero_page()));
            assert(m1.frame_index(p as int) == k);
            assert forall|b: int| #[trigger] mem.bytes().contains_key(b) <==> m0.bytes().contains_key(b) by {
                if mem.holds_data(b) {
                    if b == p {
                        assert(mem.frame_index(b) == k);
                        assert(mem.frames@[k as int] is Some);
                    } else {
                        assert(mem.frame_index(b) != k);
                        assert(m1.holds_data(b));
                        assert(m1.bytes().contains_key(b));
                    }
                }
                if m0.holds_data(b) {
                    assert(m0.bytes().contains_key(b));
                    assert(m1.bytes().contains_key(b));
                    assert(m1.holds_data(b));
                    assert(b != p);
                    assert(mem.frame_index(b) != k);
                }
            }
            assert forall|b: int| #[trigger] mem.bytes().contains_key(b) implies mem.bytes()[b] == m0.bytes()[b] by {
                assert(m1.bytes().contains_key(b));
                assert(b != p);
            }
            assert(mem.bytes() =~= m0.bytes());
            assert forall|j: int|
                0 <= j < mem.frames@.len() && mem.frames@[j] is None implies (#[trigger] mem.data@[j])@.len()
                    == PAGE_SIZE by {
                assert(m1.frames@[j] is None);
            }
            mem.lemma_wf();
            assert(t@ =~= zero_table());
            assert forall|b: int| #[trigger] mem@.contains_key(b) <==> m0@.insert(
                p as int,
                zero_table(),
            ).contains_key(b) by {
                if mem.holds_table(b) && b != p {
                    assert(mem.frame_index(b) != k);
                    assert(mem.frame_index(b) < m0.frames@.len());
                }
                if m0.holds_table(b) {
                    assert(m0.frame_index(b) != k);
                }
            }
            assert forall|b: int| #[trigger] mem@.contains_key(b) implies mem@[b] == m0@.insert(
                p as int,
                zero_table(),
            )[b] by {
                if b != p {
                    assert(mem.frame_index(b) != k);
                }
            }
            assert(mem@ =~= m0@.insert(p as int, zero_table()));
        }
        p
    }
}

/// address of the level-1 table that entry `i` of the root points at.
pub open spec fn l1_of(m: Map<int, Seq<u64>>, root: int, i: int) -> int {
    pte_target(m[root][i]) as int
}

/// address of the level-0 table reached through root entry `i` and
/// level-1 entry `j`.
pub open spec fn l0_of(m: Map<int, Seq<u64>>, root: int, i: int, j: int) -> int {
    pte_target(m[l1_of(m, root, i)][j]) as int
}

/// root entry `i` is valid (a level-1 table hangs there).
pub open spec fn has_l1(m: Map<int, Seq<u64>>, root: int, i: int) -> bool {
    pte_valid(m[root][i])
}

/// a level-0 table hangs under root entry `i`, level-1 entry `j`.
pub open spec fn has_l0(m: Map<int, Seq<u64>>, root: int, i: int, j: int) -> bool {
    has_l1(m, root, i) && pte_valid(m[l1_of(m, root, i)][j])
}

pub open spec fn idx_ok(i: int) -> bool {
    0 <= i < PT_ENTRIES
}

/// The tables reachable from `root` form a tree held in `m`: every valid
/// directory entry is a pointer (V and no other flag bit) to a table held in `m`,
/// and no table is reached
/// twice (from two entries, or at two levels, or as the root).
pub open spec fn pt_wf(m: Map<int, Seq<u64>>, root: int) -> bool {
    &&& m.contains_key(root)
    &&& forall|a: int| #[trigger] m.contains_key(a) ==> m[a].len() == PT_ENTRIES
    &&& forall|i: int| idx_ok(i) && has_l1(m, root, i) ==> #[trigger] is_dir_entry(m[root][i])
    &&& forall|i: int, j: int|
        idx_ok(i) && idx_ok(j) && has_l0(m, root, i, j) ==> #[trigger] is_dir_entry(
            m[l1_of(m, root, i)][j],
        )
    &&& forall|i: int|
        idx_ok(i) && has_l1(m, root, i) ==> m.contains_key(#[trigger] l1_of(m, root, i)) && l1_of(
            m,
            root,
            i,
        ) != root
    &&& forall|i: int, i2: int|
        idx_ok(i) && idx_ok(i2) && has_l1(m, root, i) && has_l1(m, root, i2) && #[trigger] l1_of(
            m,
            root,
            i,
        ) == #[trigger] l1_of(m, root, i2) ==> i == i2
    &&& forall|i: int, j: int|
        idx_ok(i) && idx_ok(j) && has_l0(m, root, i, j) ==> m.contains_key(
            #[trigger] l0_of(m, root, i, j),
        ) && l0_of(m, root, i, j) != root
    &&& forall|i: int, j: int, i2: int|
        idx_ok(i) && idx_ok(j) && idx_ok(i2) && has_l0(m, root, i, j) && has_l1(m, root, i2)
            ==> #[trigger] l0_of(m, root, i, j) != #[trigger] l1_of(m, root, i2)
    &&& forall|i: int, j: int, i2: int, j2: int|
        idx_ok(i) && idx_ok(j) && idx_ok(i2) && idx_ok(j2) && has_l0(m, root, i, j) && has_l0(
            m,
            root,
            i2,
            j2,
        ) && #[trigger] l0_of(m, root, i, j) == #[trigger] l0_of(m, root, i2, j2) ==> i == i2 && j
            == j2
}

/// The Sv39 walk of `va` from `root`: the valid leaf entry it ends at, or
/// nothing when some level has no valid entry.
pub open spec fn translate(m: Map<int, Seq<u64>>, root: int, va: u64) -> Option<u64> {
    let i = vpn(va, 2);
    let j = vpn(va, 1);
    let k = vpn(va, 0);
    if !has_l0(m, root, i, j) {
        None
    } else if pte_valid(m[l0_of(m, root, i, j)][k]) {
        Some(m[l0_of(m, root, i, j)][k])
    } else {
        None
    }
}

/// two addresses lie in the same virtual page as far as Sv39 sees.
pub open spec fn same_vpage(va: u64, vb: u64) -> bool {
    vpn(va, 2) == vpn(vb, 2) && vpn(va, 1) == vpn(vb, 1) && vpn(va, 0) == vpn(vb, 0)
}

/// Linking a fresh zero table under root entry `i` (which was invalid)
/// keeps the tree well formed and changes no translation.
proof fn lemma_link_l1(m: Map<int, Seq<u64>>, root: int, i: int, n: u64, m2: Map<int, Seq<u64>>)
    requires
        pt_wf(m, root),
        idx_ok(i),
        !has_l1(m, root, i),
        !m.contains_key(n as int),
        n % 4096 == 0,
        n < 0x1000_0000_0000,
        m2 == m.insert(n as int, zero_table()).insert(root, m[root].update(i, ptr_pte(n))),
    ensures
        pt_wf(m2, root),
        has_l1(m2, root, i),
        l1_of(m2, root, i) == n,
        forall|i2: int| idx_ok(i2) ==> #[trigger] has_l1(m2, root, i2) == (has_l1(m, root, i2) || i2 == i),
        forall|i2: int, j2: int|
            idx_ok(i2) && idx_ok(j2) ==> #[trigger] has_l0(m2, root, i2, j2) == has_l0(m, root, i2, j2),
        forall|va: u64| #[trigger] translate(m2, root, va) == translate(m, root, va),
        forall|a: int| m.contains_key(a) && a != root ==> #[trigger] m2[a] == m[a],
        forall|i2: int| idx_ok(i2) && has_l1(m, root, i2) ==> #[trigger] l1_of(m2, root, i2) == l1_of(m, root, i2),
        forall|i2: int, j2: int|
            idx_ok(i2) && idx_ok(j2) && has_l0(m, root, i2, j2) ==> #[trigger] l0_of(m2, root, i2, j2)
                == l0_of(m, root, i2, j2),
{
    lemma_ptr_pte(n);
    assert(m2.contains_key(n as int));
    assert(m2[n as int] == zero_table());
    assert(pte_valid(0u64) == false) by (bit_vector);
    assert forall|i2: int| idx_ok(i2) && i2 != i implies l1_of(m2, root, i2) == l1_of(m, root, i2)
        && has_l1(m2, root, i2) == has_l1(m, root, i2) by {
    }
    assert forall|i2: int, j2: int|
        idx_ok(i2) && idx_ok(j2) implies #[trigger] has_l0(m2, root, i2, j2) == has_l0(m, root, i2, j2)
        && (has_l0(m, root, i2, j2) ==> l0_of(m2, root, i2, j2) == l0_of(m, root, i2, j2)) by {
        if i2 == i {
            assert(m2[l1_of(m2, root, i2)][j2] == 0u64);
        } else if has_l1(m, root, i2) {
            assert(l1_of(m, root, i2) != root);
            assert(m.contains_key(l1_of(m, root, i2)));
            assert(m2[l1_of(m2, root, i2)] == m[l1_of(m, root, i2)]);
        }
    }
    assert forall|va: u64| #[trigger] translate(m2, root, va) == translate(m, root, va) by {
        lemma_vpn_bounds(va);
        let i2 = vpn(va, 2);
        let j2 = vpn(va, 1);
        if has_l0(m, root, i2, j2) {
            assert(m2[l0_of(m2, root, i2, j2)] == m[l0_of(m, root, i2, j2)]);
        }
    }
    assert forall|i2: int| idx_ok(i2) && has_l1(m2, root, i2) implies #[trigger] is_dir_entry(
        m2[root][i2],
    ) by {
        if i2 != i {
            assert(m2[root][i2] == m[root][i2]);
        }
    }
    assert forall|i2: int, j2: int|
        idx_ok(i2) && idx_ok(j2) && has_l0(m2, root, i2, j2) implies #[trigger] is_dir_entry(
        m2[l1_of(m2, root, i2)][j2],
    ) by {
        assert(has_l0(m, root, i2, j2));
        assert(i2 != i);
        assert(m2[l1_of(m2, root, i2)] == m[l1_of(m, root, i2)]);
    }
}

/// Linking a fresh zero table under level-1 entry `j` of root entry `i`
/// (a directory that exists, with entry `j` invalid) keeps the tree well
/// formed and changes no translation.
proof fn lemma_link_l0(
    m: Map<int, Seq<u64>>,
    root: int,
    i: int,
    j: int,
    n: u64,
    m2: Map<int, Seq<u64>>,
)
    requires
        pt_wf(m, root),
        idx_ok(i),
        idx_ok(j),
        has_l1(m, root, i),
        !has_l0(m, root, i, j),
        !m.contains_key(n as int),
        n % 4096 == 0,
        n < 0x1000_0000_0000,
        m2 == m.insert(n as int, zero_table()).insert(
            l1_of(m, root, i),
            m[l1_of(m, root, i)].update(j, ptr_pte(n)),
        ),
    ensures
        pt_wf(m2, root),
        has_l0(m2, root, i, j),
        l0_of(m2, root, i, j) == n,
        forall|i2: int| idx_ok(i2) ==> #[trigger] has_l1(m2, root, i2) == has_l1(m, root, i2),
        forall|i2: int, j2: int|
            idx_ok(i2) && idx_ok(j2) ==> #[trigger] has_l0(m2, root, i2, j2) == (has_l0(m, root, i2, j2)
                || (i2 == i && j2 == j)),
        forall|va: u64| #[trigger] translate(m2, root, va) == translate(m, root, va),
        forall|a: int| m.contains_key(a) && a != l1_of(m, root, i) ==> #[trigger] m2[a] == m[a],
        forall|i2: int| idx_ok(i2) && has_l1(m, root, i2) ==> #[trigger] l1_of(m2, root, i2) == l1_of(m, root, i2),
        forall|i2: int, j2: int|
            idx_ok(i2) && idx_ok(j2) && has_l0(m, root, i2, j2) ==> #[trigger] l0_of(m2, root, i2, j2)
                == l0_of(m, root, i2, j2),
{
    lemma_ptr_pte(n);
    let t1 = l1_of(m, root, i);
    assert(m.contains_key(t1) && t1 != root);
    assert(pte_valid(0u64) == false) by (bit_vector);
    assert(m2[root] == m[root]);
    assert forall|i2: int| idx_ok(i2) implies l1_of(m2, root, i2) == l1_of(m, root, i2) && has_l1(
        m2,
        root,
        i2,
    ) == has_l1(m, root, i2) by {
    }
    assert forall|i2: int, j2: int|
        idx_ok(i2) && idx_ok(j2) && !(i2 == i && j2 == j) implies #[trigger] has_l0(m2, root, i2, j2)
        == has_l0(m, root, i2, j2) && (has_l0(m, root, i2, j2) ==> l0_of(m2, root, i2, j2) == l0_of(
        m,
        root,
        i2,
        j2,
    )) by {
        if has_l1(m, root, i2) && i2 != i {
            assert(l1_of(m, root, i2) != t1);
            assert(m2[l1_of(m2, root, i2)] == m[l1_of(m, root, i2)]);
        }
    }
    assert(l0_of(m2, root, i, j) == n);
    assert forall|va: u64| #[trigger] translate(m2, root, va) == translate(m, root, va) by {
        lemma_vpn_bounds(va);
        let i2 = vpn(va, 2);
        let j2 = vpn(va, 1);
        if i2 == i && j2 == j {
            assert(m2[n as int][vpn(va, 0)] == 0u64);
        } else if has_l0(m, root, i2, j2) {
            let t0 = l0_of(m, root, i2, j2);
            assert(t0 != t1);
            assert(m2[l0_of(m2, root, i2, j2)] == m[t0]);
        }
    }
    assert forall|i2: int, j2: int, i3: int|
        idx_ok(i2) && idx_ok(j2) && idx_ok(i3) && has_l0(m2, root, i2, j2) && has_l1(m2, root, i3)
            implies #[trigger] l0_of(m2, root, i2, j2) != #[trigger] l1_of(m2, root, i3) by {
        if i2 == i && j2 == j {
            assert(m.contains_key(l1_of(m, root, i3)));
        }
    }
    assert forall|i2: int, j2: int, i3: int, j3: int|
        idx_ok(i2) && idx_ok(j2) && idx_ok(i3) && idx_ok(j3) && has_l0(m2, root, i2, j2) && has_l0(
            m2,
            root,
            i3,
            j3,
        ) && #[trigger] l0_of(m2, root, i2, j2) == #[trigger] l0_of(m2, root, i3, j3) implies i2
        == i3 && j2 == j3 by {
        if i2 == i && j2 == j && !(i3 == i && j3 == j) {
            assert(m.contains_key(l0_of(m, root, i3, j3)));
        }
        if i3 == i && j3 == j && !(i2 == i && j2 == j) {
            assert(m.contains_key(l0_of(m, root, i2, j2)));
        }
    }
    assert forall|i2: int| idx_ok(i2) && has_l1(m2, root, i2) implies #[trigger] is_dir_entry(
        m2[root][i2],
    ) by {
        assert(has_l1(m, root, i2));
    }
    assert forall|i2: int, j2: int|
        idx_ok(i2) && idx_ok(j2) && has_l0(m2, root, i2, j2) implies #[trigger] is_dir_entry(
        m2[l1_of(m2, root, i2)][j2],
    ) by {
        if !(i2 == i && j2 == j) {
            assert(has_l0(m, root, i2, j2));
            if i2 != i {
                assert(l1_of(m, root, i2) != t1);
                assert(m2[l1_of(m2, root, i2)] == m[l1_of(m, root, i2)]);
            } else {
                assert(m2[l1_of(m2, root, i2)][j2] == m[t1][j2]);
            }
        }
    }
}

/// Writing entry `e` at slot `k` of the level-0 table under (`i`, `j`)
/// keeps the tree well formed and changes the translation of exactly the
/// pages with that (i, j, k) triple.
proof fn lemma_set_leaf(
    m: Map<int, Seq<u64>>,
    root: int,
    i: int,
    j: int,
    k: int,
    e: u64,
    m2: Map<int, Seq<u64>>,
)
    requires
        pt_wf(m, root),
        idx_ok(i),
        idx_ok(j),
        idx_ok(k),
        has_l0(m, root, i, j),
        m2 == m.insert(l0_of(m, root, i, j), m[l0_of(m, root, i, j)].update(k, e)),
    ensures
        pt_wf(m2, root),
        forall|i2: int| idx_ok(i2) ==> #[trigger] has_l1(m2, root, i2) == has_l1(m, root, i2),
        forall|i2: int, j2: int|
            idx_ok(i2) && idx_ok(j2) ==> #[trigger] has_l0(m2, root, i2, j2) == has_l0(m, root, i2, j2),
        forall|va: u64|
            #[trigger] translate(m2, root, va) == if vpn(va, 2) == i && vpn(va, 1) == j && vpn(va, 0)
                == k {
                if pte_valid(e) {
                    Some(e)
                } else {
                    None
                }
            } else {
                translate(m, root, va)
            },
        forall|a: int| m.contains_key(a) && a != l0_of(m, root, i, j) ==> #[trigger] m2[a] == m[a],
        forall|i2: int| idx_ok(i2) && has_l1(m, root, i2) ==> #[trigger] l1_of(m2, root, i2) == l1_of(m, root, i2),
        forall|i2: int, j2: int|
            idx_ok(i2) && idx_ok(j2) && has_l0(m, root, i2, j2) ==> #[trigger] l0_of(m2, root, i2, j2)
                == l0_of(m, root, i2, j2),
{
    let t0 = l0_of(m, root, i, j);
    assert(m.contains_key(t0) && t0 != root);
    assert(m2[root] == m[root]);
    assert forall|i2: int| idx_ok(i2) implies l1_of(m2, root, i2) == l1_of(m, root, i2) && has_l1(
        m2,
        root,
        i2,
    ) == has_l1(m, root, i2) by {
    }
    assert forall|i2: int, j2: int|
        idx_ok(i2) && idx_ok(j2) implies #[trigger] has_l0(m2, root, i2, j2) == has_l0(m, root, i2, j2)
        && (has_l0(m, root, i2, j2) ==> l0_of(m2, root, i2, j2) == l0_of(m, root, i2, j2)) by {
        if has_l1(m, root, i2) {
            assert(l1_of(m, root, i2) != t0);
            assert(m2[l1_of(m2, root, i2)] == m[l1_of(m, root, i2)]);
        }
    }
    assert forall|va: u64| #[trigger] translate(m2, root, va) == if vpn(va, 2) == i && vpn(va, 1)
        == j && vpn(va, 0) == k {
        if pte_valid(e) {
            Some(e)
        } else {
            None
        }
    } else {
        translate(m, root, va)
    } by {
        lemma_vpn_bounds(va);
        let i2 = vpn(va, 2);
        let j2 = vpn(va, 1);
        if has_l0(m, root, i2, j2) && !(i2 == i && j2 == j) {
            assert(l0_of(m, root, i2, j2) != t0);
        }
    }
}

/// how many new tables mapping `va` under `root` has to allocate: both
/// directories, only the level-0 one, or none.
pub open spec fn map_need(m: Map<int, Seq<u64>>, root: int, va: u64) -> int {
    if !has_l1(m, root, vpn(va, 2)) {
        2
    } else if !has_l0(m, root, vpn(va, 2), vpn(va, 1)) {
        1
    } else {
        0
    }
}

/// What one `map` of `va` under `root` does to the tables: the walk of
/// `va` ends at `leaf`; every other virtual page translates as before;
/// exactly the directories on the path of `va` come into existence, each
/// linked by a plain pointer entry (`ptr_pte`); the
/// only tables written are those on that path; new tables sit in fresh
/// pages between the old and the new allocation point.
pub open spec fn mapped(
    m: Map<int, Seq<u64>>,
    m2: Map<int, Seq<u64>>,
    root: int,
    va: u64,
    leaf: u64,
    old_next: int,
    new_next: int,
) -> bool {
    let i = vpn(va, 2);
    let j = vpn(va, 1);
    &&& pt_wf(m2, root)
    &&& translate(m2, root, va) == Some(leaf)
    &&& forall|vb: u64| !same_vpage(va, vb) ==> #[trigger] translate(m2, root, vb) == translate(m, root, vb)
    &&& forall|i2: int| idx_ok(i2) ==> #[trigger] has_l1(m2, root, i2) == (has_l1(m, root, i2) || i2 == i)
    &&& forall|i2: int, j2: int|
        idx_ok(i2) && idx_ok(j2) ==> #[trigger] has_l0(m2, root, i2, j2) == (has_l0(m, root, i2, j2)
            || (i2 == i && j2 == j))
    &&& forall|a: int| #[trigger] m.contains_key(a) ==> m2.contains_key(a)
    &&& forall|a: int|
        #[trigger] m.contains_key(a) && a != root && !(has_l1(m, root, i) && a == l1_of(m, root, i))
            && !(has_l0(m, root, i, j) && a == l0_of(m, root, i, j)) ==> m2[a] == m[a]
    &&& forall|a: int| #[trigger] m2.contains_key(a) && !m.contains_key(a) ==> old_next <= a < new_next
    &&& forall|i2: int| idx_ok(i2) && has_l1(m, root, i2) ==> #[trigger] l1_of(m2, root, i2) == l1_of(m, root, i2)
    &&& forall|i2: int, j2: int|
        idx_ok(i2) && idx_ok(j2) && has_l0(m, root, i2, j2) ==> #[trigger] l0_of(m2, root, i2, j2)
            == l0_of(m, root, i2, j2)
    &&& !has_l1(m, root, i) ==> old_next <= l1_of(m2, root, i)
    &&& !has_l0(m, root, i, j) ==> old_next <= l0_of(m2, root, i, j)
    &&& !has_l1(m, root, i) ==> m2[root][i] == ptr_pte(l1_of(m2, root, i) as u64)
    &&& !has_l0(m, root, i, j) ==> m2[l1_of(m2, root, i)][j] == ptr_pte(l0_of(m2, root, i, j) as u64)
}

/// every table of the tree under `root` sits at or above address `b`.
pub open spec fn tree_above(m: Map<int, Seq<u64>>, root: int, b: int) -> bool {
    &&& root >= b
    &&& forall|i: int| idx_ok(i) && has_l1(m, root, i) ==> #[trigger] l1_of(m, root, i) >= b
    &&& forall|i: int, j: int| idx_ok(i) && idx_ok(j) && has_l0(m, root, i, j) ==> #[trigger] l0_of(m, root, i, j) >= b
}

/// A map under a tree that sits at or above `b` (with `b` no higher than
/// the allocation point) keeps it there and leaves every table below `b`
/// untouched.
proof fn lemma_mapped_above(
    m: Map<int, Seq<u64>>,
    m2: Map<int, Seq<u64>>,
    root: int,
    va: u64,
    leaf: u64,
    old_next: int,
    new_next: int,
    b: int,
)
    requires
        mapped(m, m2, root, va, leaf, old_next, new_next),
        pt_wf(m, root),
        tree_above(m, root, b),
        b <= old_next,
    ensures
        tree_above(m2, root, b),
        forall|a: int| #[trigger] m.contains_key(a) && a < b ==> m2[a] == m[a],
{
    lemma_vpn_bounds(va);
    let i = vpn(va, 2);
    let j = vpn(va, 1);
    assert forall|i2: int| idx_ok(i2) && has_l1(m2, root, i2) implies #[trigger] l1_of(m2, root, i2) >= b by {
        if !has_l1(m, root, i2) {
            assert(i2 == i);
        }
    }
    assert forall|i2: int, j2: int| idx_ok(i2) && idx_ok(j2) && has_l0(m2, root, i2, j2) implies #[trigger] l0_of(m2, root, i2, j2) >= b by {
        if !has_l0(m, root, i2, j2) {
            assert(i2 == i && j2 == j);
        }
    }
    assert forall|a: int| #[trigger] m.contains_key(a) && a < b implies m2[a] == m[a] by {
        if has_l1(m, root, i) {
            assert(l1_of(m, root, i) >= b);
        }
        if has_l0(m, root, i, j) {
            assert(l0_of(m, root, i, j) >= b);
        }
    }
}

impl PageTable {
    /// install one 4 KiB mapping va -> pa with the given permission bits,
    /// building intermediate page tables on demand. va/pa must be
    /// page-aligned.
    pub fn map(mem: &mut PhysMem, root: usize, va: u64, pa: u64, perm: u64)
        requires
            old(mem).wf(),
            pt_wf(old(mem)@, root as int),
            va % 4096 == 0,
            pa % 4096 == 0,
            old(mem).free_pages() >= map_need(old(mem)@, root as int, va),
        ensures
            final(mem).wf(),
            final(mem).spec_base() == old(mem).spec_base(),
            final(mem).spec_next_free() == old(mem).spec_next_free() + map_need(
                old(mem)@,
                root as int,
                va,
            ) * PAGE_SIZE,
            mapped(
                old(mem)@,
                final(mem)@,
                root as int,
                va,
                leaf_pte(pa, perm),
                old(mem).spec_next_free(),
                final(mem).spec_next_free(),
            ),
            final(mem).bytes() == old(mem).bytes(),
    {
        let ghost m0 = mem@;
        let ghost nf0 = mem.spec_next_free();
        let vpn2 = ((va >> 30) & 0x1ff) as usize;
        let vpn1 = ((va >> 21) & 0x1ff) as usize;
        let vpn0 = ((va >> 12) & 0x1ff) as usize;
        proof {
            lemma_vpn_bounds(va);
        }
        // level 2: find or build the level-1 table.
        let e2 = mem.read_entry(root, vpn2);
        let t1: usize = if e2 & PTE_V == 0 {
            let n = PageTable::zeroed(mem);
            mem.write_entry(root, vpn2, ((n as u64) >> 12) << 10 | PTE_V);
            proof {
                lemma_link_l1(m0, root as int, vpn2 as int, n as u64, mem@);
            }
            n
        } else {
            ((e2 >> 10) << 12) as usize
        };
        let ghost m1 = mem@;
        assert(pt_wf(m1, root as int));
        assert(has_l1(m1, root as int, vpn2 as int) && t1 == l1_of(m1, root as int, vpn2 as int));
        // level 1: find or build the level-0 table.
        let e1 = mem.read_entry(t1, vpn1);
        let t0: usize = if e1 & PTE_V == 0 {
            let n = PageTable::zeroed(mem);
            mem.write_entry(t1, vpn1, ((n as u64) >> 12) << 10 | PTE_V);
            proof {
                lemma_link_l0(m1, root as int, vpn2 as int, vpn1 as int, n as u64, mem@);
            }
            n
        } else {
            ((e1 >> 10) << 12) as usize
        };
        let ghost m2 = mem@;
        assert(has_l0(m2, root as int, vpn2 as int, vpn1 as int) && t0 == l0_of(
            m2,
            root as int,
            vpn2 as int,
            vpn1 as int,
        ));
        mem.write_entry(t0, vpn0, (pa >> 12) << 10 | perm | PTE_V);
        proof {
            lemma_set_leaf(
                m2,
                root as int,
                vpn2 as int,
                vpn1 as int,
                vpn0 as int,
                leaf_pte(pa, perm),
                mem@,
            );
            lemma_leaf_pte_valid(pa, perm);
        }
    }
}

/// `x` is one of the pages in [lo, hi).
pub open spec fn in_pages(x: u64, lo: int, hi: int) -> bool {
    lo <= x < hi && x % 4096 == 0
}

/// the directory slot (vpn2, vpn1) of `va` as one number.
pub open spec fn l0_key(va: u64) -> int {
    vpn(va, 2) * 512 + vpn(va, 1)
}

/// root slots that some page of [lo, hi) needs and that hold no table.
pub open spec fn missing_l1(m: Map<int, Seq<u64>>, root: int, lo: int, hi: int) -> Set<int> {
    Set::new(
        |k: int|
            idx_ok(k) && !has_l1(m, root, k) && exists|x: u64| #[trigger]
                in_pages(x, lo, hi) && vpn(x, 2) == k,
    )
}

/// level-1 slots (as `l0_key`) that some page of [lo, hi) needs and that
/// lead to no level-0 table.
pub open spec fn missing_l0(m: Map<int, Seq<u64>>, root: int, lo: int, hi: int) -> Set<int> {
    Set::new(
        |k: int|
            0 <= k < 512 * 512 && !has_l0(m, root, k / 512, k % 512) && exists|x: u64| #[trigger]
                in_pages(x, lo, hi) && l0_key(x) == k,
    )
}

/// how many new tables mapping every page of [lo, hi) under `root` has to
/// allocate.
pub open spec fn tables_needed(m: Map<int, Seq<u64>>, root: int, lo: int, hi: int) -> int {
    missing_l1(m, root, lo, hi).len() + missing_l0(m, root, lo, hi).len() as int
}

proof fn lemma_missing_finite(m: Map<int, Seq<u64>>, root: int, lo: int, hi: int)
    ensures
        missing_l1(m, root, lo, hi).finite(),
        missing_l0(m, root, lo, hi).finite(),
{
    vstd::set_lib::lemma_int_range(0, 512);
    vstd::set_lib::lemma_int_range(0, 262144int);
    assert(missing_l1(m, root, lo, hi).subset_of(vstd::set_lib::set_int_range(0, 512)));
    assert(missing_l0(m, root, lo, hi).subset_of(vstd::set_lib::set_int_range(0, 262144int)));
    vstd::set_lib::lemma_len_subset(missing_l1(m, root, lo, hi), vstd::set_lib::set_int_range(0, 512));
    vstd::set_lib::lemma_len_subset(
        missing_l0(m, root, lo, hi),
        vstd::set_lib::set_int_range(0, 262144int),
    );
}

proof fn lemma_l0_key(va: u64)
    ensures
        0 <= l0_key(va) < 512 * 512,
        l0_key(va) / 512 == vpn(va, 2),
        l0_key(va) % 512 == vpn(va, 1),
{
    lemma_vpn_bounds(va);
}

/// The tables mapping the first page of [p, hi) needs are among those the
/// whole range needs.
proof fn lemma_map_need_le(m: Map<int, Seq<u64>>, root: int, p: u64, hi: int)
    requires
        p % 4096 == 0,
        p < hi,
    ensures
        map_need(m, root, p) <= tables_needed(m, root, p as int, hi),
{
    lemma_missing_finite(m, root, p as int, hi);
    lemma_l0_key(p);
    lemma_vpn_bounds(p);
    let a1 = missing_l1(m, root, p as int, hi);
    let a0 = missing_l0(m, root, p as int, hi);
    assert(in_pages(p, p as int, hi));
    if !has_l1(m, root, vpn(p, 2)) {
        assert(a1.contains(vpn(p, 2)));
        assert(a0.contains(l0_key(p)));
        vstd::set_lib::lemma_set_empty_equivalency_len(a1);
        vstd::set_lib::lemma_set_empty_equivalency_len(a0);
    } else if !has_l0(m, root, vpn(p, 2), vpn(p, 1)) {
        assert(a0.contains(l0_key(p)));
        vstd::set_lib::lemma_set_empty_equivalency_len(a0);
    }
}

/// An empty range needs no table.
proof fn lemma_needed_empty(m: Map<int, Seq<u64>>, root: int, a: int)
    ensures
        tables_needed(m, root, a, a) == 0,
{
    assert(missing_l1(m, root, a, a) =~= Set::<int>::empty());
    assert(missing_l0(m, root, a, a) =~= Set::<int>::empty());
}

/// Mapping page `p`, the first page of [p, hi), takes its slots out of
/// the missing sets of the rest of the range, and allocates exactly as
/// many tables as that removes.
proof fn lemma_needed_step(
    m: Map<int, Seq<u64>>,
    m2: Map<int, Seq<u64>>,
    root: int,
    p: u64,
    hi: int,
)
    requires
        p % 4096 == 0,
        p < hi,
        forall|i2: int| idx_ok(i2) ==> #[trigger] has_l1(m2, root, i2) == (has_l1(m, root, i2) || i2
            == vpn(p, 2)),
        forall|i2: int, j2: int|
            idx_ok(i2) && idx_ok(j2) ==> #[trigger] has_l0(m2, root, i2, j2) == (has_l0(m, root, i2, j2)
                || (i2 == vpn(p, 2) && j2 == vpn(p, 1))),
    ensures
        tables_needed(m2, root, p + 4096, hi) == tables_needed(m, root, p as int, hi) - map_need(
            m,
            root,
            p,
        ),
{
    lemma_missing_finite(m, root, p as int, hi);
    lemma_missing_finite(m2, root, p + 4096, hi);
    lemma_l0_key(p);
    let a1 = missing_l1(m, root, p as int, hi);
    let b1 = missing_l1(m2, root, p + 4096, hi);
    let a0 = missing_l0(m, root, p as int, hi);
    let b0 = missing_l0(m2, root, p + 4096, hi);
    assert(in_pages(p, p as int, hi));
    assert forall|k: int| #[trigger] b1.contains(k) <==> a1.remove(vpn(p, 2)).contains(k) by {
        if b1.contains(k) {
            let x = choose|x: u64| #[trigger] in_pages(x, p + 4096, hi) && vpn(x, 2) == k;
            assert(in_pages(x, p as int, hi));
        }
        if a1.remove(vpn(p, 2)).contains(k) {
            let x = choose|x: u64| #[trigger] in_pages(x, p as int, hi) && vpn(x, 2) == k;
            assert(x != p);
            assert(in_pages(x, p + 4096, hi));
        }
    }
    assert(b1 =~= a1.remove(vpn(p, 2)));
    assert forall|k: int| #[trigger] b0.contains(k) <==> a0.remove(l0_key(p)).contains(k) by {
        if b0.contains(k) {
            let x = choose|x: u64| #[trigger] in_pages(x, p + 4096, hi) && l0_key(x) == k;
            assert(in_pages(x, p as int, hi));
        }
        if a0.remove(l0_key(p)).contains(k) {
            let x = choose|x: u64| #[trigger] in_pages(x, p as int, hi) && l0_key(x) == k;
            assert(x != p);
            assert(in_pages(x, p + 4096, hi));
        }
    }
    assert(b0 =~= a0.remove(l0_key(p)));
    lemma_vpn_bounds(p);
    if !has_l1(m, root, vpn(p, 2)) {
        assert(a1.contains(vpn(p, 2)));
        assert(!has_l0(m, root, vpn(p, 2), vpn(p, 1)));
        assert(a0.contains(l0_key(p)));
    } else if !has_l0(m, root, vpn(p, 2), vpn(p, 1)) {
        assert(!a1.contains(vpn(p, 2)));
        assert(a0.contains(l0_key(p)));
    } else {
        assert(!a1.contains(vpn(p, 2)));
        assert(!a0.contains(l0_key(p)));
    }
}

/// Two different pages less than 512 GiB apart are different virtual
/// pages to Sv39.
pub proof fn lemma_distinct_vpages(x: u64, y: u64)
    requires
        x % 4096 == 0,
        y % 4096 == 0,
        x < y,
        y - x < 0x80_0000_0000,
    ensures
        !same_vpage(x, y),
{
    assert(x % 4096 == 0 && y % 4096 == 0 && x < y && y - x < 0x80_0000_0000 ==> !(((x >> 30u64)
        & 0x1ffu64) == ((y >> 30u64) & 0x1ffu64) && ((x >> 21u64) & 0x1ffu64) == ((y >> 21u64)
        & 0x1ffu64) && ((x >> 12u64) & 0x1ffu64) == ((y >> 12u64) & 0x1ffu64))) by (bit_vector);
}

/// Clearing the low twelve bits rounds down to a page boundary.
pub proof fn lemma_align_mask(x: u64)
    ensures
        x & !4095u64 == (x / 4096) * 4096,
{
    assert(x & !4095u64 == (x / 4096) * 4096) by (bit_vector);
}

/// What `identity` over [lo, hi) does: every page of the range maps to
/// itself (when the range spans at most 512 GiB, so that no two of its
/// pages share a virtual page); every virtual page outside it translates
/// as before; exactly the directories the range needs come into
/// existence; new tables sit in fresh pages.
pub open spec fn identity_mapped(
    m: Map<int, Seq<u64>>,
    m2: Map<int, Seq<u64>>,
    root: int,
    lo: int,
    hi: int,
    perm: u64,
    old_next: int,
    new_next: int,
) -> bool {
    &&& pt_wf(m2, root)
    &&& hi - lo <= 0x80_0000_0000 ==> forall|x: u64|
        #[trigger] in_pages(x, lo, hi) ==> translate(m2, root, x) == Some(leaf_pte(x, perm))
    &&& forall|vb: u64|
        (forall|x: u64| #[trigger] in_pages(x, lo, hi) ==> !same_vpage(x, vb)) ==> #[trigger] translate(
            m2,
            root,
            vb,
        ) == translate(m, root, vb)
    &&& forall|i: int|
        idx_ok(i) ==> #[trigger] has_l1(m2, root, i) == (has_l1(m, root, i) || exists|x: u64|
            #[trigger] in_pages(x, lo, hi) && vpn(x, 2) == i)
    &&& forall|i: int, j: int|
        idx_ok(i) && idx_ok(j) ==> #[trigger] has_l0(m2, root, i, j) == (has_l0(m, root, i, j)
            || exists|x: u64| #[trigger] in_pages(x, lo, hi) && vpn(x, 2) == i && vpn(x, 1) == j)
    &&& forall|a: int| #[trigger] m.contains_key(a) ==> m2.contains_key(a)
    &&& forall|a: int| #[trigger] m2.contains_key(a) && !m.contains_key(a) ==> old_next <= a < new_next
    &&& forall|b: int|
        #[trigger] tree_above(m, root, b) && b <= old_next ==> tree_above(m2, root, b) && forall|a: int|
            #[trigger] m.contains_key(a) && a < b ==> m2[a] == m[a]
}

impl PageTable {
    /// install an identity mapping for [pa, pa + len), widened to whole
    /// pages.
    pub fn identity(mem: &mut PhysMem, root: usize, pa: u64, len: usize, perm: u64)
        requires
            old(mem).wf(),
            pt_wf(old(mem)@, root as int),
            pa + len + PAGE_SIZE - 1 <= u64::MAX,
            old(mem).free_pages() >= tables_needed(
                old(mem)@,
                root as int,
                align_down(pa as int),
                align_up(pa + len),
            ),
        ensures
            final(mem).wf(),
            final(mem).spec_base() == old(mem).spec_base(),
            final(mem).spec_next_free() == old(mem).spec_next_free() + tables_needed(
                old(mem)@,
                root as int,
                align_down(pa as int),
                align_up(pa + len),
            ) * PAGE_SIZE,
            identity_mapped(
                old(mem)@,
                final(mem)@,
                root as int,
                align_down(pa as int),
                align_up(pa + len),
                perm,
                old(mem).spec_next_free(),
                final(mem).spec_next_free(),
            ),
            final(mem).bytes() == old(mem).bytes(),
    {
        let ghost m0 = mem@;
        let ghost nf0 = mem.spec_next_free();
        let mut p = pa & !(PAGE_SIZE as u64 - 1);
        let end = (pa + len as u64 + (PAGE_SIZE as u64 - 1)) & !(PAGE_SIZE as u64 - 1);
        let ghost lo = p as int;
        proof {
            lemma_align_mask(pa);
            lemma_align_mask((pa + len as u64 + 4095) as u64);
            assert(lo == align_down(pa as int));
            assert(end == align_up(pa + len));
            lemma_missing_finite(m0, root as int, lo, end as int);
            assert(missing_l1(mem@, root as int, lo, lo) =~= Set::<int>::empty());
            assert(forall|x: u64| !#[trigger] in_pages(x, lo, lo));
        }
        while p < end
            invariant
                mem.wf(),
                pt_wf(mem@, root as int),
                mem.spec_base() == old(mem).spec_base(),
                mem.bytes() == old(mem).bytes(),
                lo % 4096 == 0,
                lo <= p <= end,
                p % 4096 == 0,
                end % 4096 == 0,
                end <= u64::MAX,
                mem.free_pages() >= tables_needed(mem@, root as int, p as int, end as int),
                mem.spec_next_free() >= nf0,
                mem.spec_next_free() == nf0 + (tables_needed(m0, root as int, lo, end as int)
                    - tables_needed(mem@, root as int, p as int, end as int)) * PAGE_SIZE,
                end - lo <= 0x80_0000_0000 ==> forall|x: u64|
                    #[trigger] in_pages(x, lo, p as int) ==> translate(mem@, root as int, x) == Some(
                        leaf_pte(x, perm),
                    ),
                forall|vb: u64|
                    (forall|x: u64| #[trigger] in_pages(x, lo, p as int) ==> !same_vpage(x, vb))
                        ==> #[trigger] translate(mem@, root as int, vb) == translate(m0, root as int, vb),
                forall|i: int|
                    idx_ok(i) ==> #[trigger] has_l1(mem@, root as int, i) == (has_l1(m0, root as int, i)
                        || exists|x: u64| #[trigger] in_pages(x, lo, p as int) && vpn(x, 2) == i),
                forall|i: int, j: int|
                    idx_ok(i) && idx_ok(j) ==> #[trigger] has_l0(mem@, root as int, i, j) == (has_l0(
                        m0,
                        root as int,
                        i,
                        j,
                    ) || exists|x: u64|
                        #[trigger] in_pages(x, lo, p as int) && vpn(x, 2) == i && vpn(x, 1) == j),
                forall|a: int| #[trigger] m0.contains_key(a) ==> mem@.contains_key(a),
                forall|a: int|
                    #[trigger] mem@.contains_key(a) && !m0.contains_key(a) ==> nf0 <= a
                        < mem.spec_next_free(),
                forall|b: int|
                    #[trigger] tree_above(m0, root as int, b) && b <= nf0 ==> tree_above(
                        mem@,
                        root as int,
                        b,
                    ) && forall|a: int| #[trigger] m0.contains_key(a) && a < b ==> mem@[a] == m0[a],
            decreases end - p,
        {
            let ghost m1 = mem@;
            let ghost nf1 = mem.spec_next_free();
            proof {
                lemma_map_need_le(m1, root as int, p, end as int);
            }
            PageTable::map(mem, root, p, p, perm);
            proof {
                lemma_needed_step(m1, mem@, root as int, p, end as int);
                let np = (p + 4096) as int;
                assert forall|b: int|
                    #[trigger] tree_above(m0, root as int, b) && b <= nf0 implies tree_above(
                        mem@,
                        root as int,
                        b,
                    ) && forall|a: int| #[trigger] m0.contains_key(a) && a < b ==> mem@[a] == m0[a] by {
                    lemma_mapped_above(m1, mem@, root as int, p, leaf_pte(p, perm), nf1, mem.spec_next_free(), b);
                    assert forall|a: int| #[trigger] m0.contains_key(a) && a < b implies mem@[a] == m0[a] by {
                        assert(m1.contains_key(a));
                    }
                }
                assert forall|a: int|
                    #[trigger] mem@.contains_key(a) && !m0.contains_key(a) implies nf0 <= a
                        < mem.spec_next_free() by {
                    if m1.contains_key(a) {
                        assert(nf0 <= a < nf1);
                    }
                }
                assert forall|x: u64| #[trigger] in_pages(x, lo, np) implies (in_pages(x, lo, p as int)
                    || x == p) by {
                }
                if end - lo <= 0x80_0000_0000 {
                    assert forall|x: u64| #[trigger] in_pages(x, lo, np) implies translate(
                        mem@,
                        root as int,
                        x,
                    ) == Some(leaf_pte(x, perm)) by {
                        if x != p {
                            lemma_distinct_vpages(x, p);
                        }
                    }
                }
                assert forall|vb: u64|
                    (forall|x: u64| #[trigger] in_pages(x, lo, np) ==> !same_vpage(x, vb)) implies #[trigger] translate(
                    mem@,
                    root as int,
                    vb,
                ) == translate(m0, root as int, vb) by {
                    assert(in_pages(p, lo, np));
                    assert forall|x: u64| #[trigger] in_pages(x, lo, p as int) implies !same_vpage(x, vb) by {
                        assert(in_pages(x, lo, np));
                    }
                }
                assert forall|i: int| idx_ok(i) implies #[trigger] has_l1(mem@, root as int, i) == (has_l1(
                    m0,
                    root as int,
                    i,
                ) || exists|x: u64| #[trigger] in_pages(x, lo, np) && vpn(x, 2) == i) by {
                    assert(in_pages(p, lo, np));
                    if exists|x: u64| #[trigger] in_pages(x, lo, p as int) && vpn(x, 2) == i {
                        let x = choose|x: u64| #[trigger] in_pages(x, lo, p as int) && vpn(x, 2) == i;
                        assert(in_pages(x, lo, np));
                    }
                    if exists|x: u64| #[trigger] in_pages(x, lo, np) && vpn(x, 2) == i {
                        let x = choose|x: u64| #[trigger] in_pages(x, lo, np) && vpn(x, 2) == i;
                        if x != p {
                            assert(in_pages(x, lo, p as int));
                        }
                    }
                }
                assert forall|i: int, j: int| idx_ok(i) && idx_ok(j) implies #[trigger] has_l0(
                    mem@,
                    root as int,
                    i,
                    j,
                ) == (has_l0(m0, root as int, i, j) || exists|x: u64|
                    #[trigger] in_pages(x, lo, np) && vpn(x, 2) == i && vpn(x, 1) == j) by {
                    assert(in_pages(p, lo, np));
                    if exists|x: u64| #[trigger] in_pages(x, lo, p as int) && vpn(x, 2) == i && vpn(x, 1) == j {
                        let x = choose|x: u64|
                            #[trigger] in_pages(x, lo, p as int) && vpn(x, 2) == i && vpn(x, 1) == j;
                        assert(in_pages(x, lo, np));
                    }
                    if exists|x: u64| #[trigger] in_pages(x, lo, np) && vpn(x, 2) == i && vpn(x, 1) == j {
                        let x = choose|x: u64|
                            #[trigger] in_pages(x, lo, np) && vpn(x, 2) == i && vpn(x, 1) == j;
                        if x != p {
                            assert(in_pages(x, lo, p as int));
                        }
                    }
                }
            }
            p = p + PAGE_SIZE as u64;
        }
        proof {
            lemma_needed_empty(mem@, root as int, end as int);
        }
    }
}

/// some page of [lo, hi) sits under level-1 slot `j`.
pub open spec fn uses_l1_slot(lo: int, hi: int, j: int) -> bool {
    exists|x: u64| #[trigger] in_pages(x, lo, hi) && vpn(x, 1) == j
}

/// The slots a region needs when all its pages sit under root slot `v2`
/// and level-1 slots [j_lo, j_hi) of it, each of which some page uses.
proof fn lemma_region_needs(
    m: Map<int, Seq<u64>>,
    root: int,
    lo: int,
    hi: int,
    v2: int,
    j_lo: int,
    j_hi: int,
)
    requires
        idx_ok(v2),
        0 <= j_lo <= j_hi <= 512,
        forall|x: u64| #[trigger] in_pages(x, lo, hi) ==> vpn(x, 2) == v2 && j_lo <= vpn(x, 1) < j_hi,
        forall|j: int| j_lo <= j < j_hi ==> #[trigger] uses_l1_slot(lo, hi, j),
        j_lo < j_hi,
    ensures
        missing_l1(m, root, lo, hi) == (if has_l1(m, root, v2) {
            Set::<int>::empty()
        } else {
            set![v2]
        }),
        (forall|j: int| j_lo <= j < j_hi ==> !#[trigger] has_l0(m, root, v2, j)) ==> missing_l0(
            m,
            root,
            lo,
            hi,
        ) == vstd::set_lib::set_int_range(v2 * 512 + j_lo, v2 * 512 + j_hi),
        (forall|j: int| j_lo <= j < j_hi ==> #[trigger] has_l0(m, root, v2, j)) ==> missing_l0(
            m,
            root,
            lo,
            hi,
        ) == Set::<int>::empty(),
{
    assert(uses_l1_slot(lo, hi, j_lo));
    let x0 = choose|x: u64| #[trigger] in_pages(x, lo, hi) && vpn(x, 1) == j_lo;
    assert(in_pages(x0, lo, hi));
    assert(missing_l1(m, root, lo, hi) =~= (if has_l1(m, root, v2) {
        Set::<int>::empty()
    } else {
        set![v2]
    }));
    if forall|j: int| j_lo <= j < j_hi ==> !#[trigger] has_l0(m, root, v2, j) {
        assert forall|k: int| #[trigger] missing_l0(m, root, lo, hi).contains(k)
            <==> vstd::set_lib::set_int_range(v2 * 512 + j_lo, v2 * 512 + j_hi).contains(k) by {
            if vstd::set_lib::set_int_range(v2 * 512 + j_lo, v2 * 512 + j_hi).contains(k) {
                let j = k - v2 * 512;
                assert(uses_l1_slot(lo, hi, j));
                let x = choose|x: u64| #[trigger] in_pages(x, lo, hi) && vpn(x, 1) == j;
                assert(!has_l0(m, root, v2, j));
                assert(l0_key(x) == k);
            }
            if missing_l0(m, root, lo, hi).contains(k) {
                let x = choose|x: u64| #[trigger] in_pages(x, lo, hi) && l0_key(x) == k;
                assert(in_pages(x, lo, hi));
            }
        }
        assert(missing_l0(m, root, lo, hi) =~= vstd::set_lib::set_int_range(
            v2 * 512 + j_lo,
            v2 * 512 + j_hi,
        ));
    }
    if forall|j: int| j_lo <= j < j_hi ==> #[trigger] has_l0(m, root, v2, j) {
        assert forall|k: int| !#[trigger] missing_l0(m, root, lo, hi).contains(k) by {
            if missing_l0(m, root, lo, hi).contains(k) {
                let x = choose|x: u64| #[trigger] in_pages(x, lo, hi) && l0_key(x) == k;
                assert(in_pages(x, lo, hi));
                lemma_l0_key(x);
                assert(has_l0(m, root, v2, vpn(x, 1)));
            }
        }
        assert(missing_l0(m, root, lo, hi) =~= Set::<int>::empty());
    }
}

pub const UART_BASE: u64 = 0x1000_0000;

pub const PLIC_BASE: u64 = 0x0c00_0000;

pub const PLIC_SIZE: usize = 0x0040_0000;

pub const RAM_BASE: u64 = 0x8000_0000;

pub const RAM_SIZE: usize = 128 * 1024 * 1024;

proof fn lemma_uart_slots()
    ensures
        forall|x: u64| #[trigger] in_pages(x, 0x1000_0000, 0x1000_1000) ==> vpn(x, 2) == 0 && 0x80 <= vpn(x, 1) < 0x81,
        forall|j: int| 0x80 <= j < 0x81 ==> #[trigger] uses_l1_slot(0x1000_0000, 0x1000_1000, j),
{
    assert forall|x: u64| #[trigger] in_pages(x, 0x1000_0000, 0x1000_1000) implies vpn(x, 2) == 0 && 0x80 <= vpn(x, 1) < 0x81 by {
        assert(0x1000_0000 <= x < 0x1000_1000 ==> (x >> 30u64) & 0x1ffu64 == 0 && (x >> 21u64) & 0x1ffu64 == 0x80) by (bit_vector);
    }
    assert(((0x1000_0000u64 >> 21u64) & 0x1ffu64) == 0x80) by (bit_vector);
    assert(in_pages(0x1000_0000u64, 0x1000_0000, 0x1000_1000));
}

proof fn lemma_plic_slots()
    ensures
        forall|x: u64| #[trigger] in_pages(x, 0x0c00_0000, 0x0c40_0000) ==> vpn(x, 2) == 0 && 0x60 <= vpn(x, 1) < 0x62,
        forall|j: int| 0x60 <= j < 0x62 ==> #[trigger] uses_l1_slot(0x0c00_0000, 0x0c40_0000, j),
{
    assert forall|x: u64| #[trigger] in_pages(x, 0x0c00_0000, 0x0c40_0000) implies vpn(x, 2) == 0 && 0x60 <= vpn(x, 1) < 0x62 by {
        assert(0x0c00_0000 <= x < 0x0c40_0000 ==> (x >> 30u64) & 0x1ffu64 == 0 && 0x60 <= (x >> 21u64) & 0x1ffu64 && (x >> 21u64) & 0x1ffu64 < 0x62) by (bit_vector);
    }
    assert(((0x0c00_0000u64 >> 21u64) & 0x1ffu64) == 0x60) by (bit_vector);
    assert(((0x0c20_0000u64 >> 21u64) & 0x1ffu64) == 0x61) by (bit_vector);
    assert(in_pages(0x0c00_0000u64, 0x0c00_0000, 0x0c40_0000));
    assert(in_pages(0x0c20_0000u64, 0x0c00_0000, 0x0c40_0000));
}

proof fn lemma_ram_slots()
    ensures
        forall|x: u64| #[trigger] in_pages(x, 0x8000_0000, 0x8800_0000) ==> vpn(x, 2) == 2 && 0 <= vpn(x, 1) < 64,
        forall|j: int| 0 <= j < 64 ==> #[trigger] uses_l1_slot(0x8000_0000, 0x8800_0000, j),
{
    assert forall|x: u64| #[trigger] in_pages(x, 0x8000_0000, 0x8800_0000) implies vpn(x, 2) == 2 && 0 <= vpn(x, 1) < 64 by {
        assert(0x8000_0000 <= x < 0x8800_0000 ==> (x >> 30u64) & 0x1ffu64 == 2 && (x >> 21u64) & 0x1ffu64 < 64) by (bit_vector);
    }
    assert forall|j: int| 0 <= j < 64 implies #[trigger] uses_l1_slot(0x8000_0000, 0x8800_0000, j) by {
        let jj = j as u64;
        let x: u64 = (0x8000_0000u64 + jj * 0x20_0000u64) as u64;
        assert(jj < 64 ==> ((0x8000_0000u64 + jj * 0x20_0000u64) as u64 >> 21u64) & 0x1ffu64 == jj
            && (0x8000_0000u64 + jj * 0x20_0000u64) as u64 % 4096 == 0 && 0x8000_0000u64 <= (0x8000_0000u64 + jj * 0x20_0000u64) as u64
            && ((0x8000_0000u64 + jj * 0x20_0000u64) as u64) < 0x8800_0000u64) by (bit_vector);
        assert(in_pages(x, 0x8000_0000, 0x8800_0000));
    }
}

/// tables the kernel's identity map takes: the root, two level-1 and
/// sixty-seven level-0 tables.
pub const KERNEL_MAP_TABLES: usize = 70;

/// the permission the kernel's identity map gives page `x`, if it maps
/// it: the uart page and the PLIC read/write, RAM read/write/execute.
pub open spec fn kernel_perm(x: u64) -> Option<u64> {
    if in_pages(x, UART_BASE as int, UART_BASE + PAGE_SIZE) {
        Some(PROT_RW)
    } else if in_pages(x, PLIC_BASE as int, PLIC_BASE + PLIC_SIZE) {
        Some(PROT_RW)
    } else if in_pages(x, RAM_BASE as int, RAM_BASE + RAM_SIZE) {
        Some(PROT_RWX)
    } else {
        None
    }
}

/// The tree under `root` is exactly the kernel's identity map: each page
/// of the Sv39 range translates to itself with its kernel permission, or
/// to nothing; directories hang under root slots 0 and 2 only.
pub open spec fn maps_kernel(m: Map<int, Seq<u64>>, root: int) -> bool {
    &&& pt_wf(m, root)
    &&& forall|x: u64|
        x % 4096 == 0 && x < 0x80_0000_0000 ==> #[trigger] translate(m, root, x) == match kernel_perm(x) {
            Some(perm) => Some(leaf_pte(x, perm)),
            None => None,
        }
    &&& forall|i: int| idx_ok(i) ==> (#[trigger] has_l1(m, root, i) <==> (i == 0 || i == 2))
    &&& forall|i: int, j: int|
        idx_ok(i) && idx_ok(j) ==> (#[trigger] has_l0(m, root, i, j) <==> ((i == 0 && (j == 0x60 || j
            == 0x61 || j == 0x80)) || (i == 2 && j < 64)))
}

/// The kernel identity map in a fresh root table: uart, PLIC and RAM.
fn kernel_address_space(mem: &mut PhysMem) -> (root: usize)
    requires
        old(mem).wf(),
        old(mem).free_pages() >= KERNEL_MAP_TABLES,
    ensures
        final(mem).wf(),
        root == old(mem).spec_next_free(),
        maps_kernel(final(mem)@, root as int),
        tree_above(final(mem)@, root as int, old(mem).spec_next_free()),
        final(mem).spec_base() == old(mem).spec_base(),
        final(mem).spec_next_free() == old(mem).spec_next_free() + KERNEL_MAP_TABLES * PAGE_SIZE,
        forall|a: int| #[trigger] old(mem)@.contains_key(a) ==> final(mem)@.contains_key(a)
            && final(mem)@[a] == old(mem)@[a],
        forall|a: int|
            #[trigger] final(mem)@.contains_key(a) && !old(mem)@.contains_key(a) ==> old(mem).spec_next_free()
                <= a < final(mem).spec_next_free(),
        final(mem).bytes() == old(mem).bytes(),
{
    let ghost m0 = mem@;
    let ghost nf0 = mem.spec_next_free();
    let pt = PageTable::zeroed(mem);
    let ghost mr = mem@;
    let ghost n1 = mem.spec_next_free();
    proof {
        lemma_fresh_root(m0, mr, pt as int, nf0);
    }
    PageTable::identity(mem, pt, UART_BASE, PAGE_SIZE, PROT_RW);
    let ghost mu = mem@;
    let ghost n2 = mem.spec_next_free();
    proof {
        lemma_after_uart(mr, mu, pt as int, n1, n2);
    }
    PageTable::identity(mem, pt, PLIC_BASE, PLIC_SIZE, PROT_RW);
    let ghost mp = mem@;
    let ghost n3 = mem.spec_next_free();
    proof {
        lemma_after_plic(mu, mp, pt as int, n2, n3);
    }
    PageTable::identity(mem, pt, RAM_BASE, RAM_SIZE, PROT_RWX);
    proof {
        lemma_after_ram(mp, mem@, pt as int, n3, mem.spec_next_free());
        lemma_kernel_translations(mr, mu, mp, mem@, pt as int, n1, n2, n3, mem.spec_next_free());
        lemma_kernel_frame(m0, mr, mu, mp, mem@, pt as int, nf0, n1, n2, n3, mem.spec_next_free());
    }
    pt
}

proof fn lemma_fresh_root(m0: Map<int, Seq<u64>>, mr: Map<int, Seq<u64>>, r: int, nf0: int)
    requires
        mr == m0.insert(r, zero_table()),
        r == nf0,
        forall|a: int| #[trigger] m0.contains_key(a) ==> m0[a].len() == PT_ENTRIES,
    ensures
        pt_wf(mr, r),
        tree_above(mr, r, nf0),
        forall|i: int| idx_ok(i) ==> !#[trigger] has_l1(mr, r, i),
        forall|va: u64| #[trigger] translate(mr, r, va) is None,
        tables_needed(mr, r, 0x1000_0000, 0x1000_1000) == 2,
{
    assert(pte_valid(0u64) == false) by (bit_vector);
    assert(forall|i: int| idx_ok(i) ==> !#[trigger] has_l1(mr, r, i));
    assert forall|va: u64| #[trigger] translate(mr, r, va) is None by {
        lemma_vpn_bounds(va);
    }
    lemma_uart_slots();
    lemma_region_needs(mr, r, 0x1000_0000, 0x1000_1000, 0, 0x80, 0x81);
    vstd::set_lib::lemma_int_range(0x80, 0x81);
}

proof fn lemma_after_uart(mr: Map<int, Seq<u64>>, mu: Map<int, Seq<u64>>, r: int, n1: int, n2: int)
    requires
        forall|i: int| idx_ok(i) ==> !#[trigger] has_l1(mr, r, i),
        identity_mapped(mr, mu, r, 0x1000_0000, 0x1000_1000, PROT_RW, n1, n2),
    ensures
        forall|i: int| idx_ok(i) ==> (#[trigger] has_l1(mu, r, i) <==> i == 0),
        forall|i: int, j: int|
            idx_ok(i) && idx_ok(j) ==> (#[trigger] has_l0(mu, r, i, j) <==> (i == 0 && j == 0x80)),
        tables_needed(mu, r, 0x0c00_0000, 0x0c40_0000) == 2,
{
    lemma_uart_slots();
    assert(in_pages(0x1000_0000u64, 0x1000_0000, 0x1000_1000));
    assert(forall|i: int| idx_ok(i) ==> (#[trigger] has_l1(mu, r, i) <==> i == 0));
    assert forall|i: int, j: int| idx_ok(i) && idx_ok(j) implies (#[trigger] has_l0(mu, r, i, j) <==> (i
        == 0 && j == 0x80)) by {
        assert(!has_l0(mr, r, i, j));
    }
    lemma_plic_slots();
    lemma_region_needs(mu, r, 0x0c00_0000, 0x0c40_0000, 0, 0x60, 0x62);
    vstd::set_lib::lemma_int_range(0x60, 0x62);
}

proof fn lemma_after_plic(mu: Map<int, Seq<u64>>, mp: Map<int, Seq<u64>>, r: int, n2: int, n3: int)
    requires
        forall|i: int| idx_ok(i) ==> (#[trigger] has_l1(mu, r, i) <==> i == 0),
        forall|i: int, j: int|
            idx_ok(i) && idx_ok(j) ==> (#[trigger] has_l0(mu, r, i, j) <==> (i == 0 && j == 0x80)),
        identity_mapped(mu, mp, r, 0x0c00_0000, 0x0c40_0000, PROT_RW, n2, n3),
    ensures
        forall|i: int| idx_ok(i) ==> (#[trigger] has_l1(mp, r, i) <==> i == 0),
        forall|i: int, j: int|
            idx_ok(i) && idx_ok(j) ==> (#[trigger] has_l0(mp, r, i, j) <==> (i == 0 && (j == 0x60 || j
                == 0x61 || j == 0x80))),
        tables_needed(mp, r, 0x8000_0000, 0x8800_0000) == 65,
{
    lemma_plic_slots();
    assert(in_pages(0x0c00_0000u64, 0x0c00_0000, 0x0c40_0000));
    assert(forall|i: int| idx_ok(i) ==> (#[trigger] has_l1(mp, r, i) <==> i == 0));
    assert forall|i: int, j: int| idx_ok(i) && idx_ok(j) implies (#[trigger] has_l0(mp, r, i, j) <==> (i
        == 0 && (j == 0x60 || j == 0x61 || j == 0x80))) by {
        if i == 0 && (j == 0x60 || j == 0x61) {
            assert(uses_l1_slot(0x0c00_0000, 0x0c40_0000, j));
        }
    }
    lemma_ram_slots();
    lemma_region_needs(mp, r, 0x8000_0000, 0x8800_0000, 2, 0, 64);
    vstd::set_lib::lemma_int_range(1024, 1088);
}

proof fn lemma_after_ram(mp: Map<int, Seq<u64>>, mk: Map<int, Seq<u64>>, r: int, n3: int, n4: int)
    requires
        forall|i: int| idx_ok(i) ==> (#[trigger] has_l1(mp, r, i) <==> i == 0),
        forall|i: int, j: int|
            idx_ok(i) && idx_ok(j) ==> (#[trigger] has_l0(mp, r, i, j) <==> (i == 0 && (j == 0x60 || j
                == 0x61 || j == 0x80))),
        identity_mapped(mp, mk, r, 0x8000_0000, 0x8800_0000, PROT_RWX, n3, n4),
    ensures
        forall|i: int| idx_ok(i) ==> (#[trigger] has_l1(mk, r, i) <==> (i == 0 || i == 2)),
        forall|i: int, j: int|
            idx_ok(i) && idx_ok(j) ==> (#[trigger] has_l0(mk, r, i, j) <==> ((i == 0 && (j == 0x60 || j
                == 0x61 || j == 0x80)) || (i == 2 && j < 64))),
{
    lemma_ram_slots();
    assert(in_pages(0x8000_0000u64, 0x8000_0000, 0x8800_0000));
    assert(forall|i: int| idx_ok(i) ==> (#[trigger] has_l1(mk, r, i) <==> (i == 0 || i == 2)));
    assert forall|i: int, j: int| idx_ok(i) && idx_ok(j) implies (#[trigger] has_l0(mk, r, i, j) <==> ((i
        == 0 && (j == 0x60 || j == 0x61 || j == 0x80)) || (i == 2 && j < 64))) by {
        if i == 2 && j < 64 {
            assert(uses_l1_slot(0x8000_0000, 0x8800_0000, j));
        }
    }
}

proof fn lemma_kernel_translations(
    mr: Map<int, Seq<u64>>,
    mu: Map<int, Seq<u64>>,
    mp: Map<int, Seq<u64>>,
    mk: Map<int, Seq<u64>>,
    r: int,
    n1: int,
    n2: int,
    n3: int,
    n4: int,
)
    requires
        forall|va: u64| #[trigger] translate(mr, r, va) is None,
        identity_mapped(mr, mu, r, 0x1000_0000, 0x1000_1000, PROT_RW, n1, n2),
        identity_mapped(mu, mp, r, 0x0c00_0000, 0x0c40_0000, PROT_RW, n2, n3),
        identity_mapped(mp, mk, r, 0x8000_0000, 0x8800_0000, PROT_RWX, n3, n4),
    ensures
        forall|x: u64|
            x % 4096 == 0 && x < 0x80_0000_0000 ==> #[trigger] translate(mk, r, x) == match kernel_perm(x) {
                Some(perm) => Some(leaf_pte(x, perm)),
                None => None,
            },
{
    assert forall|x: u64| x % 4096 == 0 && x < 0x80_0000_0000 implies #[trigger] translate(mk, r, x)
        == match kernel_perm(x) {
        Some(perm) => Some(leaf_pte(x, perm)),
        None => None,
    } by {
        let uart = in_pages(x, 0x1000_0000, 0x1000_1000);
        let plic = in_pages(x, 0x0c00_0000, 0x0c40_0000);
        let ram = in_pages(x, 0x8000_0000, 0x8800_0000);
        if !uart {
            lemma_outside_range(x, 0x1000_0000, 0x1000_1000);
        }
        if !plic {
            lemma_outside_range(x, 0x0c00_0000, 0x0c40_0000);
        }
        if !ram {
            lemma_outside_range(x, 0x8000_0000, 0x8800_0000);
        }
        if uart {
            assert(translate(mu, r, x) == Some(leaf_pte(x, PROT_RW)));
        } else if plic {
            assert(translate(mp, r, x) == Some(leaf_pte(x, PROT_RW)));
        } else if ram {
            assert(translate(mk, r, x) == Some(leaf_pte(x, PROT_RWX)));
        } else {
            assert(translate(mr, r, x) is None);
        }
    }
}

proof fn lemma_kernel_frame(
    m0: Map<int, Seq<u64>>,
    mr: Map<int, Seq<u64>>,
    mu: Map<int, Seq<u64>>,
    mp: Map<int, Seq<u64>>,
    mk: Map<int, Seq<u64>>,
    r: int,
    nf0: int,
    n1: int,
    n2: int,
    n3: int,
    n4: int,
)
    requires
        mr == m0.insert(r, zero_table()),
        r == nf0,
        nf0 <= n1 <= n2 <= n3 <= n4,
        forall|a: int| #[trigger] m0.contains_key(a) ==> a < nf0,
        forall|a: int| #[trigger] mr.contains_key(a) && !m0.contains_key(a) ==> nf0 <= a < n1,
        tree_above(mr, r, nf0),
        identity_mapped(mr, mu, r, 0x1000_0000, 0x1000_1000, PROT_RW, n1, n2),
        identity_mapped(mu, mp, r, 0x0c00_0000, 0x0c40_0000, PROT_RW, n2, n3),
        identity_mapped(mp, mk, r, 0x8000_0000, 0x8800_0000, PROT_RWX, n3, n4),
    ensures
        tree_above(mk, r, nf0),
        forall|a: int| #[trigger] m0.contains_key(a) ==> mk.contains_key(a) && mk[a] == m0[a],
        forall|a: int| #[trigger] mk.contains_key(a) && !m0.contains_key(a) ==> nf0 <= a < n4,
{
    assert(tree_above(mu, r, nf0));
    assert(tree_above(mp, r, nf0));
    assert forall|a: int| #[trigger] m0.contains_key(a) implies mk.contains_key(a) && mk[a] == m0[a] by {
        assert(mr.contains_key(a) && mr[a] == m0[a]);
        assert(mu.contains_key(a) && mu[a] == m0[a]);
        assert(mp.contains_key(a) && mp[a] == m0[a]);
    }
    assert forall|a: int| #[trigger] mk.contains_key(a) && !m0.contains_key(a) implies nf0 <= a < n4 by {
        if !mp.contains_key(a) {
            assert(n3 <= a < n4);
        } else if !mu.contains_key(a) {
            assert(n2 <= a < n3);
        } else if !mr.contains_key(a) {
            assert(n1 <= a < n2);
        } else {
            assert(nf0 <= a < n1);
        }
    }
}

/// A page below 2^39 outside [lo, hi) (which ends at or below 2^39)
/// shares its virtual page with no page of the range.
proof fn lemma_outside_range(x: u64, lo: int, hi: int)
    requires
        x % 4096 == 0,
        x < 0x80_0000_0000,
        hi <= 0x80_0000_0000,
        !in_pages(x, lo, hi),
    ensures
        forall|y: u64| #[trigger] in_pages(y, lo, hi) ==> !same_vpage(y, x),
{
    assert forall|y: u64| #[trigger] in_pages(y, lo, hi) implies !same_vpage(y, x) by {
        if y < x {
            lemma_distinct_vpages(y, x);
        } else {
            lemma_distinct_vpages(x, y);
        }
    }
}

/// Build the kernel page table over a fresh allocator that starts above
/// `kernel_end`: identity-map every region the kernel touches (uart,
/// PLIC, RAM). Returns the allocator with the tables and the root's
/// physical address; loading satp with `satp_for(root)` turns paging on.
pub fn init(kernel_end: usize) -> (r: (PhysMem, usize))
    requires
        kernel_end + PAGE_SIZE - 1 <= usize::MAX,
        kernel_end >= RAM_BASE,
        align_up(kernel_end as int) + KERNEL_MAP_TABLES * PAGE_SIZE <= PHYS_END,
    ensures
        r.0.wf(),
        r.1 == align_up(kernel_end as int),
        r.0.spec_base() == align_up(kernel_end as int),
        r.0.spec_next_free() == align_up(kernel_end as int) + KERNEL_MAP_TABLES * PAGE_SIZE,
        maps_kernel(r.0@, r.1 as int),
        forall|a: int| #[trigger] r.0@.contains_key(a) ==> r.1 <= a < r.0.spec_next_free(),
        r.0.bytes() == Map::<int, Seq<u8>>::empty(),
{
    let mut mem = PhysMem::init_alloc(kernel_end);
    let pt = kernel_address_space(&mut mem);
    (mem, pt)
}

/// a fresh page table holding the kernel mapping, for a user task.
pub fn new_user_pt(mem: &mut PhysMem) -> (pt: usize)
    requires
        old(mem).wf(),
        old(mem).free_pages() >= KERNEL_MAP_TABLES,
    ensures
        final(mem).wf(),
        pt == old(mem).spec_next_free(),
        maps_kernel(final(mem)@, pt as int),
        tree_above(final(mem)@, pt as int, old(mem).spec_next_free()),
        final(mem).spec_base() == old(mem).spec_base(),
        final(mem).spec_next_free() == old(mem).spec_next_free() + KERNEL_MAP_TABLES * PAGE_SIZE,
        forall|a: int| #[trigger] old(mem)@.contains_key(a) ==> final(mem)@.contains_key(a)
            && final(mem)@[a] == old(mem)@[a],
        forall|a: int|
            #[trigger] final(mem)@.contains_key(a) && !old(mem)@.contains_key(a) ==> old(mem).spec_next_free()
                <= a < final(mem).spec_next_free(),
        final(mem).bytes() == old(mem).bytes(),
{
    kernel_address_space(mem)
}

/// the satp value that selects Sv39 translation through the root table
/// at `pt`.
pub fn satp_for(pt: usize) -> (satp: u64)
    ensures
        satp == SATP_SV39 | ((pt as u64) >> 12u64),
{
    SATP_SV39 | ((pt as u64) >> 12)
}

/// satp selects Sv39 (mode 8 in the top four bits), and for a page-aligned
/// root below 2^56 its page-number field names exactly that root.
pub proof fn lemma_satp_names_root(pt: u64)
    requires
        pt % 4096 == 0,
        pt < 0x100_0000_0000_0000,
    ensures
        (SATP_SV39 | (pt >> 12u64)) >> 60u64 == 8,
        ((SATP_SV39 | (pt >> 12u64)) & 0xfff_ffff_ffffu64) << 12u64 == pt,
{
    assert(SATP_SV39 == 0x8000_0000_0000_0000u64) by (bit_vector);
    assert(pt % 4096 == 0 && pt < 0x100_0000_0000_0000 ==> (0x8000_0000_0000_0000u64 | (pt >> 12u64))
        >> 60u64 == 8 && ((0x8000_0000_0000_0000u64 | (pt >> 12u64)) & 0xfff_ffff_ffffu64) << 12u64
        == pt) by (bit_vector);
}

pub const USER_CODE_VA: u64 = 0x4000_0000;

pub const USER_STACK_VA: u64 = 0x4100_0000;

pub const USER_STACK_PAGES: usize = 4;  // 16 KiB

/// the virtual address of code page `i`.
pub open spec fn code_va(i: int) -> int {
    USER_CODE_VA + i * PAGE_SIZE
}

/// the virtual address of stack page `i`.
pub open spec fn stack_va(i: int) -> int {
    USER_STACK_VA + i * PAGE_SIZE
}

/// pages needed to hold `len` bytes.
pub open spec fn pages_for(len: int) -> int {
    (len + PAGE_SIZE - 1) / PAGE_SIZE as int
}

/// tables the code pages of an image of `pages` pages add to a table that
/// holds the kernel map: the level-1 table for root slot 1 and one
/// level-0 table per 512 pages.
pub open spec fn code_tables(pages: int) -> int {
    if pages <= 0 {
        0
    } else {
        2 + (pages - 1) / 512
    }
}

/// tables the stack pages add after `pages` code pages: none once the
/// code reaches level-1 slot 8, where the stack lives.
pub open spec fn stack_tables(pages: int) -> int {
    if pages <= 0 {
        2
    } else if pages <= 8 * 512 {
        1
    } else {
        0
    }
}

/// pages mapping an image of `pages` code pages (and the stack) takes.
pub open spec fn image_pages_needed(pages: int) -> int {
    pages + code_tables(pages) + USER_STACK_PAGES + stack_tables(pages)
}

/// the number of pages mapping an image of `blob_len` bytes takes.
pub fn image_pages_needed_for(blob_len: usize) -> (n: usize)
    requires
        blob_len + PAGE_SIZE - 1 <= usize::MAX,
    ensures
        n == image_pages_needed(pages_for(blob_len as int)),
{
    let pages = (blob_len + (PAGE_SIZE - 1)) / PAGE_SIZE;
    let code_tables = if pages == 0 {
        0
    } else {
        2 + (pages - 1) / 512
    };
    let stack_tables = if pages == 0 {
        2
    } else if pages <= 8 * 512 {
        1
    } else {
        0
    };
    pages + code_tables + USER_STACK_PAGES + stack_tables
}

proof fn lemma_code_vpn(i: u64)
    requires
        i < 262144,
    ensures
        code_va(i as int) <= u64::MAX,
        (code_va(i as int) as u64) % 4096 == 0,
        vpn(code_va(i as int) as u64, 2) == 1,
        vpn(code_va(i as int) as u64, 1) == i / 512,
        vpn(code_va(i as int) as u64, 0) == i % 512,
{
    assert(i < 262144 ==> ((0x4000_0000u64 + i * 4096u64) as u64 >> 30u64) & 0x1ffu64 == 1
        && ((0x4000_0000u64 + i * 4096u64) as u64 >> 21u64) & 0x1ffu64 == i / 512
        && ((0x4000_0000u64 + i * 4096u64) as u64 >> 12u64) & 0x1ffu64 == i % 512
        && (0x4000_0000u64 + i * 4096u64) as u64 % 4096 == 0) by (bit_vector);
}

proof fn lemma_stack_vpn(i: u64)
    requires
        i < 512,
    ensures
        stack_va(i as int) <= u64::MAX,
        (stack_va(i as int) as u64) % 4096 == 0,
        vpn(stack_va(i as int) as u64, 2) == 1,
        vpn(stack_va(i as int) as u64, 1) == 8,
        vpn(stack_va(i as int) as u64, 0) == i,
{
    assert(i < 512 ==> ((0x4100_0000u64 + i * 4096u64) as u64 >> 30u64) & 0x1ffu64 == 1
        && ((0x4100_0000u64 + i * 4096u64) as u64 >> 21u64) & 0x1ffu64 == 8
        && ((0x4100_0000u64 + i * 4096u64) as u64 >> 12u64) & 0x1ffu64 == i
        && (0x4100_0000u64 + i * 4096u64) as u64 % 4096 == 0) by (bit_vector);
}

/// the user permission bits: read/write/execute for code, read/write for
/// the stack, both reachable from u-mode.
pub const PROT_USER_CODE: u64 = PROT_RWX | PTE_U;

pub const PROT_USER_STACK: u64 = PROT_RW | PTE_U;

/// the translation of page `x` under the kernel map alone.
pub open spec fn kernel_translation(x: u64) -> Option<u64> {
    match kernel_perm(x) {
        Some(perm) => Some(leaf_pte(x, perm)),
        None => None,
    }
}

/// the translation of page `x` in a task address space: the stack pages,
/// then the code pages (the stack wins where they overlap), then the
/// kernel map.
pub open spec fn user_translation(code: Seq<usize>, stack: Seq<usize>, x: u64) -> Option<u64> {
    if USER_STACK_VA <= x < stack_va(stack.len() as int) {
        Some(leaf_pte(stack[(x - USER_STACK_VA) / PAGE_SIZE as int] as u64, PROT_USER_STACK))
    } else if USER_CODE_VA <= x < code_va(code.len() as int) {
        Some(leaf_pte(code[(x - USER_CODE_VA) / PAGE_SIZE as int] as u64, PROT_USER_CODE))
    } else {
        kernel_translation(x)
    }
}

/// `pages` are data pages: page-aligned, handed out in [lo, hi) in
/// increasing order, and none of them holds a table of `m`.
pub open spec fn fresh_data_pages(m: Map<int, Seq<u64>>, pages: Seq<usize>, lo: int, hi: int) -> bool {
    &&& forall|k: int|
        0 <= k < pages.len() ==> #[trigger] pages[k] % PAGE_SIZE == 0 && lo <= pages[k] < hi
            && !m.contains_key(pages[k] as int)
    &&& forall|k: int, l: int| 0 <= k < l < pages.len() ==> #[trigger] pages[k] < #[trigger] pages[l]
}

/// When `k` more pages fit below the end of RAM, at least `k` pages are free.
pub proof fn lemma_free_pages(m: PhysMem, k: int)
    requires
        m.wf(),
        k >= 0,
        m.spec_next_free() + k * PAGE_SIZE <= PHYS_END,
    ensures
        m.free_pages() >= k,
{
}

proof fn lemma_code_tables_step(i: int)
    requires
        i >= 0,
    ensures
        code_tables(i + 1) - code_tables(i) == (if i == 0 {
            2int
        } else if i % 512 == 0 {
            1int
        } else {
            0int
        }),
        i > 0 ==> (i - 1) / 512 <= i / 512,
        i > 0 && i % 512 != 0 ==> (i - 1) / 512 == i / 512,
        i > 0 && i % 512 == 0 ==> (i - 1) / 512 + 1 == i / 512,
{
}

proof fn lemma_code_tables_mono(i: int, n: int)
    requires
        0 <= i <= n,
    ensures
        code_tables(i) <= code_tables(n),
        i > 0 ==> (i - 1) / 512 <= (n - 1) / 512,
{
    if i > 0 {
        assert((i - 1) / 512 <= (n - 1) / 512) by (nonlinear_arith)
            requires
                0 <= i - 1 <= n - 1,
        ;
    }
}

/// Map the code pages of the image `blob` at USER_CODE_VA (user
/// read/write/execute) and USER_STACK_PAGES stack pages at USER_STACK_VA
/// (user read/write) into `pt`, which holds the kernel map, each onto a
/// freshly allocated page; load each code page with its part of the image
/// (zeros past the end) and leave the stack pages zero. Returns the code
/// pages and the stack pages in order.
pub fn map_user_image(mem: &mut PhysMem, pt: usize, blob: &[u8]) -> (r: (Vec<usize>, Vec<usize>))
    requires
        old(mem).wf(),
        maps_kernel(old(mem)@, pt as int),
        blob@.len() + PAGE_SIZE - 1 <= usize::MAX,
        old(mem).free_pages() >= image_pages_needed(pages_for(blob@.len() as int)),
    ensures
        final(mem).wf(),
        final(mem).spec_base() == old(mem).spec_base(),
        final(mem).spec_next_free() == old(mem).spec_next_free() + image_pages_needed(
            pages_for(blob@.len() as int),
        ) * PAGE_SIZE,
        r.0@.len() == pages_for(blob@.len() as int),
        r.1@.len() == USER_STACK_PAGES,
        pt_wf(final(mem)@, pt as int),
        forall|x: u64|
            x % 4096 == 0 && x < 0x80_0000_0000 ==> #[trigger] translate(final(mem)@, pt as int, x)
                == user_translation(r.0@, r.1@, x),
        fresh_data_pages(final(mem)@, r.0@ + r.1@, old(mem).spec_next_free(), final(mem).spec_next_free()),
        forall|a: int| #[trigger] old(mem)@.contains_key(a) ==> final(mem)@.contains_key(a),
        forall|a: int|
            #[trigger] final(mem)@.contains_key(a) && !old(mem)@.contains_key(a) ==> old(mem).spec_next_free()
                <= a < final(mem).spec_next_free(),
        forall|b: int|
            #[trigger] tree_above(old(mem)@, pt as int, b) && b <= old(mem).spec_next_free() ==> tree_above(
                final(mem)@,
                pt as int,
                b,
            ) && forall|a: int| #[trigger] old(mem)@.contains_key(a) && a < b ==> final(mem)@[a] == old(
                mem,
            )@[a],
        image_loaded(old(mem).bytes(), final(mem).bytes(), blob@, r.0@, r.1@),
{
    let blob_len = blob.len();
    let ghost m0 = mem@;
    let ghost b0 = mem.bytes();
    let ghost nf0 = mem.spec_next_free();
    let pages = (blob_len + PAGE_SIZE - 1) / PAGE_SIZE;
    let ghost total = image_pages_needed(pages as int);
    proof {
        assert(nf0 + total * PAGE_SIZE <= PHYS_END);
        assert(pages <= 32768);
    }
    let mut code: Vec<usize> = Vec::new();
    let mut i: usize = 0;
    while i < pages
        invariant
            mem.wf(),
            mem.spec_base() == old(mem).spec_base(),
            pt_wf(mem@, pt as int),
            i <= pages <= 32768,
            total == image_pages_needed(pages as int),
            nf0 + total * PAGE_SIZE <= PHYS_END,
            mem.spec_next_free() == nf0 + (i + code_tables(i as int)) * PAGE_SIZE,
            code@.len() == i,
            bytes_grown(b0, mem.bytes()),
            b0 == old(mem).bytes(),
            fresh_data_pages(mem@, code@, nf0, mem.spec_next_free()),
            forall|k: int| idx_ok(k) ==> (#[trigger] has_l1(mem@, pt as int, k) <==> image_dirs_l1(k, i as int, false)),
            forall|k: int, j: int|
                idx_ok(k) && idx_ok(j) ==> (#[trigger] has_l0(mem@, pt as int, k, j) <==> image_dirs_l0(k, j, i as int, false)),
            forall|k: int| 0 <= k < i ==> #[trigger] translate(mem@, pt as int, code_va(k) as u64) == Some(leaf_pte(code@[k] as u64, PROT_USER_CODE)),
            forall|x: u64|
                x % 4096 == 0 && x < 0x80_0000_0000 && !(USER_CODE_VA <= x < code_va(i as int)) ==> #[trigger] translate(
                    mem@,
                    pt as int,
                    x,
                ) == kernel_translation(x),
            forall|a: int| #[trigger] m0.contains_key(a) ==> mem@.contains_key(a),
            forall|a: int| #[trigger] mem@.contains_key(a) && !m0.contains_key(a) ==> nf0 <= a < mem.spec_next_free(),
            forall|b: int|
                #[trigger] tree_above(m0, pt as int, b) && b <= nf0 ==> tree_above(mem@, pt as int, b)
                    && forall|a: int| #[trigger] m0.contains_key(a) && a < b ==> mem@[a] == m0[a],
        decreases pages - i,
    {
        let ghost m1 = mem@;
        let ghost nf1 = mem.spec_next_free();
        proof {
            lemma_code_tables_step(i as int);
            lemma_code_tables_mono(i as int + 1, pages as int);
            lemma_free_pages(*mem, 1);
        }
        let ghost bb = mem.bytes();
        let pa = match mem.alloc_page() {
            Some(p) => p,
            None => { return (code, Vec::new()); },
        };
        proof { lemma_grown_by_alloc(b0, bb, mem.bytes(), pa as int); }
        let va = USER_CODE_VA + (i * PAGE_SIZE) as u64;
        proof {
            lemma_code_vpn(i as u64);
            assert(va == code_va(i as int));
            lemma_free_pages(*mem, code_tables(i as int + 1) - code_tables(i as int));
        }
        PageTable::map(mem, pt, va, pa as u64, PROT_USER_CODE);
        let ghost m2 = mem@;
        code.push(pa);
        proof {
            lemma_code_step(m1, m2, pt as int, i as int, pa, nf0, nf1, mem.spec_next_free(), code@);
        }
        i += 1;
    }
    let ghost mc = mem@;
    let ghost nfc = mem.spec_next_free();
    proof {
        lemma_code_image(mc, pt as int, code@);
        assert(code@ + Seq::<usize>::empty() =~= code@);
    }
    let mut stack: Vec<usize> = Vec::new();
    let mut s: usize = 0;
    while s < USER_STACK_PAGES
        invariant
            mem.wf(),
            mem.spec_base() == old(mem).spec_base(),
            pt_wf(mem@, pt as int),
            s <= USER_STACK_PAGES,
            pages <= 32768,
            code@.len() == pages,
            total == image_pages_needed(pages as int),
            nf0 + total * PAGE_SIZE <= PHYS_END,
            nfc == nf0 + (pages + code_tables(pages as int)) * PAGE_SIZE,
            mem.spec_next_free() == nfc + (s + (if s == 0 { 0 } else { stack_tables(pages as int) })) * PAGE_SIZE,
            stack@.len() == s,
            bytes_grown(b0, mem.bytes()),
            b0 == old(mem).bytes(),
            fresh_data_pages(mem@, code@ + stack@, nf0, mem.spec_next_free()),
            forall|k: int| idx_ok(k) ==> (#[trigger] has_l1(mem@, pt as int, k) <==> image_dirs_l1(k, pages as int, s > 0)),
            forall|k: int, j: int|
                idx_ok(k) && idx_ok(j) ==> (#[trigger] has_l0(mem@, pt as int, k, j) <==> image_dirs_l0(k, j, pages as int, s > 0)),
            forall|k: int| 0 <= k < s ==> #[trigger] translate(mem@, pt as int, stack_va(k) as u64) == Some(leaf_pte(stack@[k] as u64, PROT_USER_STACK)),
            forall|x: u64|
                x % 4096 == 0 && x < 0x80_0000_0000 && !(USER_STACK_VA <= x < stack_va(s as int)) ==> #[trigger] translate(
                    mem@,
                    pt as int,
                    x,
                ) == user_translation(code@, Seq::empty(), x),
            forall|a: int| #[trigger] m0.contains_key(a) ==> mem@.contains_key(a),
            forall|a: int| #[trigger] mem@.contains_key(a) && !m0.contains_key(a) ==> nf0 <= a < mem.spec_next_free(),
            forall|b: int|
                #[trigger] tree_above(m0, pt as int, b) && b <= nf0 ==> tree_above(mem@, pt as int, b)
                    && forall|a: int| #[trigger] m0.contains_key(a) && a < b ==> mem@[a] == m0[a],
        decreases USER_STACK_PAGES - s,
    {
        let ghost m1 = mem@;
        let ghost nf1 = mem.spec_next_free();
        let ghost stack0 = stack@;
        proof {
            lemma_free_pages(*mem, 1);
        }
        let ghost bb = mem.bytes();
        let pa = match mem.alloc_page() {
            Some(p) => p,
            None => { return (code, stack); },
        };
        proof { lemma_grown_by_alloc(b0, bb, mem.bytes(), pa as int); }
        let va = USER_STACK_VA + (s * PAGE_SIZE) as u64;
        proof {
            lemma_stack_vpn(s as u64);
            assert(va == stack_va(s as int));
            lemma_free_pages(*mem, map_need(m1, pt as int, va));
        }
        PageTable::map(mem, pt, va, pa as u64, PROT_USER_STACK);
        let ghost m2 = mem@;
        stack.push(pa);
        proof {
            assert(stack@.drop_last() =~= stack0);
            lemma_stack_step(m1, m2, pt as int, s as int, pages as int, pa, nf0, nf1, mem.spec_next_free(), code@, stack@);
        }
        s += 1;
    }
    proof {
        lemma_stack_image(mem@, pt as int, code@, stack@);
    }
    let ghost mf = mem@;
    let ghost nff = mem.spec_next_free();
    let ghost pg = code@ + stack@;
    proof {
        assert forall|k: int| 0 <= k < pg.len() implies #[trigger] mem.bytes().contains_key(pg[k] as int)
            && mem.bytes()[pg[k] as int] == zero_page() by {
            mem.lemma_data_page(pg[k] as int);
            assert(!b0.contains_key(pg[k] as int));
        }
        assert forall|k: int| 0 <= k < stack@.len() implies #[trigger] mem.bytes()[stack@[k] as int] == zero_page() by {
            assert(0 <= pages + k < pg.len());
            assert(pg[pages + k] == stack@[k]);
            assert(mem.bytes().contains_key(pg[pages + k] as int));
        }
    }
    // load the image, page by page.
    let mut i: usize = 0;
    while i < pages
        invariant
            mem.wf(),
            mem@ == mf,
            mem.spec_base() == old(mem).spec_base(),
            mem.spec_next_free() == nff,
            i <= pages <= 32768,
            code@.len() == pages,
            stack@.len() == USER_STACK_PAGES,
            pg == code@ + stack@,
            fresh_data_pages(mf, pg, nf0, nff),
            forall|a: int| #[trigger] b0.contains_key(a) ==> mem.bytes().contains_key(a) && mem.bytes()[a] == b0[a],
            forall|a: int| #[trigger] b0.contains_key(a) ==> a < nf0,
            forall|k: int| 0 <= k < pg.len() ==> #[trigger] mem.bytes().contains_key(pg[k] as int),
            forall|k: int| 0 <= k < i ==> #[trigger] mem.bytes()[code@[k] as int] == image_page(blob@, k),
            forall|k: int| 0 <= k < stack@.len() ==> #[trigger] mem.bytes()[stack@[k] as int] == zero_page(),
        decreases pages - i,
    {
        let page = image_page_bytes(blob, i);
        let ghost before = mem.bytes();
        let a = code[i];
        proof {
            assert(pg[i as int] == a);
            assert(mem.bytes().contains_key(pg[i as int] as int));
        }
        mem.write_page(a, page);
        proof {
            assert forall|k: int| 0 <= k < pg.len() && k != i implies #[trigger] pg[k] != a by {
                if k < i {
                    assert(pg[k] < pg[i as int]);
                } else {
                    assert(pg[i as int] < pg[k]);
                }
            }
            assert forall|k: int| 0 <= k < pg.len() implies #[trigger] mem.bytes().contains_key(pg[k] as int) by {
                assert(before.contains_key(pg[k] as int));
            }
            assert forall|k: int| 0 <= k < i + 1 implies #[trigger] mem.bytes()[code@[k] as int] == image_page(blob@, k) by {
                assert(pg[k] == code@[k]);
            }
            assert forall|k: int| 0 <= k < stack@.len() implies #[trigger] mem.bytes()[stack@[k] as int] == zero_page() by {
                assert(pg[pages + k] == stack@[k]);
            }
            assert forall|a2: int| #[trigger] b0.contains_key(a2) implies mem.bytes().contains_key(a2) && mem.bytes()[a2] == b0[a2] by {
                assert(a2 < nf0);
                assert(a2 != a);
            }
        }
        i += 1;
    }
    proof {
        assert forall|k: int| 0 <= k < code@.len() implies mem.bytes().contains_key(#[trigger] code@[k] as int) by {
            assert(pg[k] == code@[k]);
        }
        assert forall|k: int| 0 <= k < stack@.len() implies mem.bytes().contains_key(#[trigger] stack@[k] as int) by {
            assert(pg[pages + k] == stack@[k]);
        }
    }
    (code, stack)
}

/// `b1` keeps every data page of `b0` as it was, and every data page it
/// adds holds zeros.
pub open spec fn bytes_grown(b0: Map<int, Seq<u8>>, b1: Map<int, Seq<u8>>) -> bool {
    &&& forall|a: int| #[trigger] b0.contains_key(a) ==> b1.contains_key(a) && b1[a] == b0[a]
    &&& forall|a: int| #[trigger] b1.contains_key(a) && !b0.contains_key(a) ==> b1[a] == zero_page()
}

/// Handing out one more zero page keeps the data pages grown by zeros.
proof fn lemma_grown_by_alloc(b0: Map<int, Seq<u8>>, b1: Map<int, Seq<u8>>, b2: Map<int, Seq<u8>>, p: int)
    requires
        bytes_grown(b0, b1),
        !b1.contains_key(p),
        b2 == b1.insert(p, zero_page()),
    ensures
        bytes_grown(b0, b2),
{
}

/// The data pages after an image `blob` was loaded: every page that was
/// there before is unchanged, code page `k` holds page `k` of the image
/// (zeros past its end), and every stack page holds zeros.
pub open spec fn image_loaded(
    b0: Map<int, Seq<u8>>,
    b1: Map<int, Seq<u8>>,
    blob: Seq<u8>,
    code: Seq<usize>,
    stack: Seq<usize>,
) -> bool {
    &&& forall|a: int| #[trigger] b0.contains_key(a) ==> b1.contains_key(a) && b1[a] == b0[a]
    &&& forall|k: int| 0 <= k < code.len() ==> b1.contains_key(#[trigger] code[k] as int) && b1[code[k] as int]
        == image_page(blob, k)
    &&& forall|k: int| 0 <= k < stack.len() ==> b1.contains_key(#[trigger] stack[k] as int) && b1[stack[k] as int]
        == zero_page()
}

/// The directories present in a table holding the kernel map after code
/// pages [0, i) (and, when `stack`, the stack) went in.
pub open spec fn image_dirs_l1(k: int, code_pages: int, stack: bool) -> bool {
    k == 0 || k == 2 || (k == 1 && (code_pages > 0 || stack))
}

pub open spec fn image_dirs_l0(k: int, j: int, code_pages: int, stack: bool) -> bool {
    (k == 0 && (j == 0x60 || j == 0x61 || j == 0x80)) || (k == 2 && j < 64) || (k == 1 && code_pages
        > 0 && j <= (code_pages - 1) / 512) || (k == 1 && j == 8 && stack)
}

proof fn lemma_code_step(
    m1: Map<int, Seq<u64>>,
    m2: Map<int, Seq<u64>>,
    pt: int,
    i: int,
    pa: usize,
    nf0: int,
    nf1: int,
    nf2: int,
    code: Seq<usize>,
)
    requires
        0 <= i < 32768,
        pt_wf(m1, pt),
        code.len() == i + 1,
        code[i] == pa,
        pa == nf1,
        nf1 % 4096 == 0,
        nf0 <= nf1,
        forall|a: int| #[trigger] m1.contains_key(a) ==> a < nf1,
        fresh_data_pages(m1, code.drop_last(), nf0, nf1),
        forall|k: int| idx_ok(k) ==> (#[trigger] has_l1(m1, pt, k) <==> image_dirs_l1(k, i, false)),
        forall|k: int, j: int|
            idx_ok(k) && idx_ok(j) ==> (#[trigger] has_l0(m1, pt, k, j) <==> image_dirs_l0(k, j, i, false)),
        forall|k: int| 0 <= k < i ==> #[trigger] translate(m1, pt, code_va(k) as u64) == Some(leaf_pte(code[k] as u64, PROT_USER_CODE)),
        forall|x: u64|
            x % 4096 == 0 && x < 0x80_0000_0000 && !(USER_CODE_VA <= x < code_va(i)) ==> #[trigger] translate(m1, pt, x)
                == kernel_translation(x),
        mapped(m1, m2, pt, code_va(i) as u64, leaf_pte(pa as u64, PROT_USER_CODE), nf1 + 4096, nf2),
        nf2 == nf1 + 4096 + map_need(m1, pt, code_va(i) as u64) * PAGE_SIZE,
    ensures
        map_need(m1, pt, code_va(i) as u64) == code_tables(i + 1) - code_tables(i),
        fresh_data_pages(m2, code, nf0, nf2),
        forall|k: int| idx_ok(k) ==> (#[trigger] has_l1(m2, pt, k) <==> image_dirs_l1(k, i + 1, false)),
        forall|k: int, j: int|
            idx_ok(k) && idx_ok(j) ==> (#[trigger] has_l0(m2, pt, k, j) <==> image_dirs_l0(k, j, i + 1, false)),
        forall|k: int| 0 <= k < i + 1 ==> #[trigger] translate(m2, pt, code_va(k) as u64) == Some(leaf_pte(code[k] as u64, PROT_USER_CODE)),
        forall|x: u64|
            x % 4096 == 0 && x < 0x80_0000_0000 && !(USER_CODE_VA <= x < code_va(i + 1)) ==> #[trigger] translate(m2, pt, x)
                == kernel_translation(x),
{
    lemma_code_vpn(i as u64);
    lemma_code_tables_step(i);
    let va = code_va(i) as u64;
    assert forall|k: int| 0 <= k < i + 1 implies #[trigger] translate(m2, pt, code_va(k) as u64) == Some(leaf_pte(code[k] as u64, PROT_USER_CODE)) by {
        if k < i {
            lemma_code_vpn(k as u64);
            lemma_distinct_vpages(code_va(k) as u64, va);
            assert(code[k] == code.drop_last()[k]);
        }
    }
    assert forall|x: u64|
        x % 4096 == 0 && x < 0x80_0000_0000 && !(USER_CODE_VA <= x < code_va(i + 1)) implies #[trigger] translate(m2, pt, x)
            == kernel_translation(x) by {
        if x < va {
            lemma_distinct_vpages(x, va);
        } else {
            lemma_distinct_vpages(va, x);
        }
    }
    assert forall|k: int| 0 <= k < code.len() implies #[trigger] code[k] % PAGE_SIZE == 0 && nf0 <= code[k] < nf2
        && !m2.contains_key(code[k] as int) by {
        if k < i {
            assert(code[k] == code.drop_last()[k]);
        }
    }
    assert forall|k: int, l: int| 0 <= k < l < code.len() implies #[trigger] code[k] < #[trigger] code[l] by {
        assert(code[k] == code.drop_last()[k]);
        if l < i {
            assert(code[l] == code.drop_last()[l]);
        }
    }
}

proof fn lemma_stack_step(
    m1: Map<int, Seq<u64>>,
    m2: Map<int, Seq<u64>>,
    pt: int,
    s: int,
    pages: int,
    pa: usize,
    nf0: int,
    nf1: int,
    nf2: int,
    code: Seq<usize>,
    stack: Seq<usize>,
)
    requires
        0 <= s < USER_STACK_PAGES,
        0 <= pages <= 32768,
        code.len() == pages,
        pt_wf(m1, pt),
        stack.len() == s + 1,
        stack[s] == pa,
        pa == nf1,
        nf1 % 4096 == 0,
        nf0 <= nf1,
        forall|a: int| #[trigger] m1.contains_key(a) ==> a < nf1,
        fresh_data_pages(m1, code + stack.drop_last(), nf0, nf1),
        forall|k: int| idx_ok(k) ==> (#[trigger] has_l1(m1, pt, k) <==> image_dirs_l1(k, pages, s > 0)),
        forall|k: int, j: int|
            idx_ok(k) && idx_ok(j) ==> (#[trigger] has_l0(m1, pt, k, j) <==> image_dirs_l0(k, j, pages, s > 0)),
        forall|k: int| 0 <= k < s ==> #[trigger] translate(m1, pt, stack_va(k) as u64) == Some(leaf_pte(stack[k] as u64, PROT_USER_STACK)),
        forall|x: u64|
            x % 4096 == 0 && x < 0x80_0000_0000 && !(USER_STACK_VA <= x < stack_va(s)) ==> #[trigger] translate(m1, pt, x)
                == user_translation(code, Seq::empty(), x),
        mapped(m1, m2, pt, stack_va(s) as u64, leaf_pte(pa as u64, PROT_USER_STACK), nf1 + 4096, nf2),
        nf2 == nf1 + 4096 + map_need(m1, pt, stack_va(s) as u64) * PAGE_SIZE,
    ensures
        map_need(m1, pt, stack_va(s) as u64) == (if s == 0 { stack_tables(pages) } else { 0 }),
        fresh_data_pages(m2, code + stack, nf0, nf2),
        forall|k: int| idx_ok(k) ==> (#[trigger] has_l1(m2, pt, k) <==> image_dirs_l1(k, pages, true)),
        forall|k: int, j: int|
            idx_ok(k) && idx_ok(j) ==> (#[trigger] has_l0(m2, pt, k, j) <==> image_dirs_l0(k, j, pages, true)),
        forall|k: int| 0 <= k < s + 1 ==> #[trigger] translate(m2, pt, stack_va(k) as u64) == Some(leaf_pte(stack[k] as u64, PROT_USER_STACK)),
        forall|x: u64|
            x % 4096 == 0 && x < 0x80_0000_0000 && !(USER_STACK_VA <= x < stack_va(s + 1)) ==> #[trigger] translate(m2, pt, x)
                == user_translation(code, Seq::empty(), x),
{
    lemma_stack_vpn(s as u64);
    let va = stack_va(s) as u64;
    if pages > 0 {
        assert((pages - 1) / 512 <= 63) by (nonlinear_arith)
            requires
                0 <= pages - 1 < 32768,
        ;
        if pages <= 4096 {
            assert((pages - 1) / 512 < 8) by (nonlinear_arith)
                requires
                    0 <= pages - 1 < 4096,
            ;
        } else {
            assert((pages - 1) / 512 >= 8) by (nonlinear_arith)
                requires
                    4096 <= pages - 1,
            ;
        }
    }
    assert forall|k: int| 0 <= k < s + 1 implies #[trigger] translate(m2, pt, stack_va(k) as u64) == Some(leaf_pte(stack[k] as u64, PROT_USER_STACK)) by {
        if k < s {
            lemma_stack_vpn(k as u64);
            lemma_distinct_vpages(stack_va(k) as u64, va);
            assert(stack[k] == stack.drop_last()[k]);
        }
    }
    assert forall|x: u64|
        x % 4096 == 0 && x < 0x80_0000_0000 && !(USER_STACK_VA <= x < stack_va(s + 1)) implies #[trigger] translate(m2, pt, x)
            == user_translation(code, Seq::empty(), x) by {
        if x < va {
            lemma_distinct_vpages(x, va);
        } else {
            lemma_distinct_vpages(va, x);
        }
    }
    let all = code + stack;
    let prev = code + stack.drop_last();
    assert(all.drop_last() =~= prev);
    assert forall|k: int| 0 <= k < all.len() implies #[trigger] all[k] % PAGE_SIZE == 0 && nf0 <= all[k] < nf2
        && !m2.contains_key(all[k] as int) by {
        if k < all.len() - 1 {
            assert(all[k] == prev[k]);
        }
    }
    assert forall|k: int, l: int| 0 <= k < l < all.len() implies #[trigger] all[k] < #[trigger] all[l] by {
        assert(all[k] == prev[k]);
        if l < all.len() - 1 {
            assert(all[l] == prev[l]);
        }
    }
}

proof fn lemma_code_image(m: Map<int, Seq<u64>>, pt: int, code: Seq<usize>)
    requires
        code.len() <= 32768,
        forall|k: int| 0 <= k < code.len() ==> #[trigger] translate(m, pt, code_va(k) as u64) == Some(leaf_pte(code[k] as u64, PROT_USER_CODE)),
        forall|x: u64|
            x % 4096 == 0 && x < 0x80_0000_0000 && !(USER_CODE_VA <= x < code_va(code.len() as int)) ==> #[trigger] translate(m, pt, x)
                == kernel_translation(x),
    ensures
        forall|x: u64|
            x % 4096 == 0 && x < 0x80_0000_0000 ==> #[trigger] translate(m, pt, x) == user_translation(code, Seq::empty(), x),
{
    assert forall|x: u64| x % 4096 == 0 && x < 0x80_0000_0000 implies #[trigger] translate(m, pt, x) == user_translation(code, Seq::empty(), x) by {
        if USER_CODE_VA <= x < code_va(code.len() as int) {
            let k = (x - USER_CODE_VA) / PAGE_SIZE as int;
            assert(code_va(k) == x);
            assert(translate(m, pt, code_va(k) as u64) == Some(leaf_pte(code[k] as u64, PROT_USER_CODE)));
        }
    }
}

proof fn lemma_stack_image(m: Map<int, Seq<u64>>, pt: int, code: Seq<usize>, stack: Seq<usize>)
    requires
        stack.len() == USER_STACK_PAGES,
        forall|k: int| 0 <= k < stack.len() ==> #[trigger] translate(m, pt, stack_va(k) as u64) == Some(leaf_pte(stack[k] as u64, PROT_USER_STACK)),
        forall|x: u64|
            x % 4096 == 0 && x < 0x80_0000_0000 && !(USER_STACK_VA <= x < stack_va(stack.len() as int)) ==> #[trigger] translate(m, pt, x)
                == user_translation(code, Seq::empty(), x),
    ensures
        forall|x: u64|
            x % 4096 == 0 && x < 0x80_0000_0000 ==> #[trigger] translate(m, pt, x) == user_translation(code, stack, x),
{
    assert forall|x: u64| x % 4096 == 0 && x < 0x80_0000_0000 implies #[trigger] translate(m, pt, x) == user_translation(code, stack, x) by {
        if USER_STACK_VA <= x < stack_va(stack.len() as int) {
            let k = (x - USER_STACK_VA) / PAGE_SIZE as int;
            assert(stack_va(k) == x);
            assert(translate(m, pt, stack_va(k) as u64) == Some(leaf_pte(stack[k] as u64, PROT_USER_STACK)));
        }
    }
}

/// The bump allocator never hands out a page twice: of two successful
/// allocations in a row the second page lies one page above the first.
pub proof fn lemma_alloc_never_repeats(m0: PhysMem, m1: PhysMem, r1: usize, r2: usize)
    requires
        m0.free_pages() >= 1,
        r1 == m0.spec_next_free(),
        m1.spec_next_free() == m0.spec_next_free() + PAGE_SIZE,
        m1.free_pages() >= 1,
        r2 == m1.spec_next_free(),
    ensures
        r1 != r2,
        r2 == r1 + PAGE_SIZE,
{
}

/// Tables that were left alone translate as before: when every table held
/// in `m` is still held, unchanged, in `m2`, the tree under `root` is
/// still well formed and every address translates as it did. (Building a
/// task's page table this way never disturbs the kernel's.)
pub proof fn lemma_untouched_tables_translate_alike(
    m: Map<int, Seq<u64>>,
    m2: Map<int, Seq<u64>>,
    root: int,
)
    requires
        pt_wf(m, root),
        forall|a: int| #[trigger] m.contains_key(a) ==> m2.contains_key(a) && m2[a] == m[a],
        forall|a: int| #[trigger] m2.contains_key(a) ==> m2[a].len() == PT_ENTRIES,
    ensures
        pt_wf(m2, root),
        forall|va: u64| #[trigger] translate(m2, root, va) == translate(m, root, va),
{
    assert forall|i: int| idx_ok(i) implies #[trigger] has_l1(m2, root, i) == has_l1(m, root, i)
        && l1_of(m2, root, i) == l1_of(m, root, i) by {
    }
    assert forall|i: int, j: int| idx_ok(i) && idx_ok(j) implies #[trigger] has_l0(m2, root, i, j)
        == has_l0(m, root, i, j) && (has_l0(m, root, i, j) ==> l0_of(m2, root, i, j) == l0_of(
        m,
        root,
        i,
        j,
    )) by {
        if has_l1(m, root, i) {
            assert(m.contains_key(l1_of(m, root, i)));
        }
    }
    assert forall|va: u64| #[trigger] translate(m2, root, va) == translate(m, root, va) by {
        lemma_vpn_bounds(va);
        if has_l0(m, root, vpn(va, 2), vpn(va, 1)) {
            assert(m.contains_key(l0_of(m, root, vpn(va, 2), vpn(va, 1))));
        }
    }
}

} // verus!
