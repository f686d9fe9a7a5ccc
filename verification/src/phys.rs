//! Physical memory as an arena of 4 KiB pages above a watermark.
//!
//! The bump allocator only ever advances: page `j` occupies the address
//! `base + j * 4096`, no page is ever reclaimed, and every page is zero at
//! the moment it is handed out. A page is either payload data or a page
//! table of the two-level scheme.

use vstd::prelude::*;
use crate::pte::{PAGE_SIZE, PHYS_ADDR_LIMIT};

verus! {

/// Number of entries in one table of the two-level scheme.
pub const ENTRY_COUNT_2LVL: usize = 1024;

/// What one physical page of the arena holds.
pub enum PageContent {
    /// 4096 bytes of payload memory.
    Data { bytes: Vec<u8> },
    /// A page table of the two-level scheme: 1024 entries in the shared
    /// entry format, whose one-page hardware image the two-level module's
    /// Sv32 encoder produces.
    Table { entries: Vec<u64> },
}

/// The physical pages handed out so far, in allocation order.
pub struct PhysMem {
    /// Address of page 0; the watermark the allocator started from.
    pub base: u64,
    /// Page `j` occupies the address `base + j * 4096`.
    pub pages: Vec<PageContent>,
}

impl PhysMem {
    /// Physical address of page `j`.
    pub open spec fn page_addr(self, j: int) -> int {
        self.base + j * 4096
    }

    /// Index of the page at a physical address.
    pub open spec fn idx_of(self, pa: u64) -> int {
        (pa - self.base) / 4096
    }

    /// The address is the base of a page the arena has handed out.
    pub open spec fn owns(self, pa: u64) -> bool {
        &&& self.base <= pa
        &&& pa < self.base + self.pages@.len() * 4096
        &&& (pa - self.base) % 4096 == 0
    }

    /// Page `j` is a page table.
    pub open spec fn is_table(self, j: int) -> bool {
        self.pages@[j] is Table
    }

    /// Page `j` is payload data.
    pub open spec fn is_data(self, j: int) -> bool {
        self.pages@[j] is Data
    }

    /// Entries of the table in page `j`.
    pub open spec fn tblv(self, j: int) -> Seq<u64> {
        match self.pages@[j] {
            PageContent::Table { entries } => entries@,
            PageContent::Data { .. } => Seq::empty(),
        }
    }

    /// Bytes of the data page `j`.
    pub open spec fn datav(self, j: int) -> Seq<u8> {
        match self.pages@[j] {
            PageContent::Data { bytes } => bytes@,
            PageContent::Table { .. } => Seq::empty(),
        }
    }

    /// Every page is aligned, inside the addressable range, and of its
    /// kind's exact size.
    pub open spec fn arena_wf(self) -> bool {
        &&& self.base % 4096 == 0
        &&& self.base >= 4096
        &&& self.base + self.pages@.len() * 4096 <= PHYS_ADDR_LIMIT
        &&& forall|j: int| 0 <= j < self.pages@.len() ==> match #[trigger] self.pages@[j] {
            PageContent::Data { bytes } => bytes@.len() == 4096,
            PageContent::Table { entries } => entries@.len() == ENTRY_COUNT_2LVL,
        }
    }

    /// Starts the arena at the first page boundary at or above the given
    /// low-water mark.
    pub fn new(raw_base: u64) -> (m: PhysMem)
        requires
            4096 <= raw_base,
            raw_base + 2 * PAGE_SIZE <= PHYS_ADDR_LIMIT,
        ensures
            m.arena_wf(),
            m.pages@.len() == 0,
            raw_base <= m.base < raw_base + PAGE_SIZE,
            m.base % PAGE_SIZE == 0,
    {
        let base = crate::page_round_up(raw_base);
        PhysMem { base, pages: Vec::new() }
    }

    /// Hands out the next physical page as zero-filled payload memory.
    ///
    /// The address is fresh: it never equals the address of any page handed
    /// out before, and the page is all zero at the moment of return.
    pub fn allocate_page(&mut self) -> (pa: u64)
        requires
            old(self).arena_wf(),
            old(self).base + (old(self).pages@.len() + 1) * 4096 <= PHYS_ADDR_LIMIT,
        ensures
            final(self).arena_wf(),
            final(self).base == old(self).base,
            final(self).pages@.len() == old(self).pages@.len() + 1,
            forall|j: int| 0 <= j < old(self).pages@.len()
                ==> final(self).pages@[j] == old(self).pages@[j],
            pa == old(self).page_addr(old(self).pages@.len() as int),
            pa % PAGE_SIZE == 0,
            final(self).is_data(old(self).pages@.len() as int),
            final(self).datav(old(self).pages@.len() as int) == Seq::new(4096nat, |i: int| 0u8),
    {
        let j = self.pages.len();
        let pa = self.base + (j as u64) * PAGE_SIZE;
        let bytes: Vec<u8> = vec![0u8; 4096];
        proof {
            assert(bytes@ =~= Seq::new(4096nat, |i: int| 0u8));
        }
        self.pages.push(PageContent::Data { bytes });
        pa
    }

    /// Hands out the next physical page as payload memory holding the given
    /// 4096 bytes — the copy of a segment's file window with its zero tail.
    pub fn allocate_page_bytes(&mut self, bytes: Vec<u8>) -> (pa: u64)
        requires
            old(self).arena_wf(),
            old(self).base + (old(self).pages@.len() + 1) * 4096 <= PHYS_ADDR_LIMIT,
            bytes@.len() == 4096,
        ensures
            final(self).arena_wf(),
            final(self).base == old(self).base,
            final(self).pages@.len() == old(self).pages@.len() + 1,
            forall|j: int| 0 <= j < old(self).pages@.len()
                ==> final(self).pages@[j] == old(self).pages@[j],
            pa == old(self).page_addr(old(self).pages@.len() as int),
            pa % PAGE_SIZE == 0,
            final(self).is_data(old(self).pages@.len() as int),
            final(self).datav(old(self).pages@.len() as int) == bytes@,
    {
        let j = self.pages.len();
        let pa = self.base + (j as u64) * PAGE_SIZE;
        self.pages.push(PageContent::Data { bytes });
        pa
    }

    /// Hands out the next physical page as a zero-filled page table of the
    /// two-level scheme. Tables come from the same watermark as data pages,
    /// so their addresses are fresh in the same way.
    pub fn allocate_table(&mut self) -> (pa: u64)
        requires
            old(self).arena_wf(),
            old(self).base + (old(self).pages@.len() + 1) * 4096 <= PHYS_ADDR_LIMIT,
        ensures
            final(self).arena_wf(),
            final(self).base == old(self).base,
            final(self).pages@.len() == old(self).pages@.len() + 1,
            forall|j: int| 0 <= j < old(self).pages@.len()
                ==> final(self).pages@[j] == old(self).pages@[j],
            pa == old(self).page_addr(old(self).pages@.len() as int),
            pa % PAGE_SIZE == 0,
            final(self).is_table(old(self).pages@.len() as int),
            final(self).tblv(old(self).pages@.len() as int)
                == Seq::new(ENTRY_COUNT_2LVL as nat, |i: int| 0u64),
    {
        let j = self.pages.len();
        let pa = self.base + (j as u64) * PAGE_SIZE;
        let entries: Vec<u64> = vec![0u64; ENTRY_COUNT_2LVL];
        proof {
            assert(entries@ =~= Seq::new(ENTRY_COUNT_2LVL as nat, |i: int| 0u64));
        }
        self.pages.push(PageContent::Table { entries });
        pa
    }

    /// Number of pages handed out so far.
    pub fn page_count(&self) -> (n: usize)
        ensures
            n == self.pages@.len(),
    {
        self.pages.len()
    }

    /// Reads one entry of the table in page `j`.
    pub fn table_entry(&self, j: usize, k: usize) -> (e: u64)
        requires
            self.arena_wf(),
            (j as int) < self.pages@.len(),
            self.is_table(j as int),
            k < ENTRY_COUNT_2LVL,
        ensures
            e == self.tblv(j as int)[k as int],
    {
        match &self.pages[j] {
            PageContent::Table { entries } => entries[k],
            PageContent::Data { .. } => 0,
        }
    }

    /// Writes one entry of the table in page `j`.
    pub fn set_table_entry(&mut self, j: usize, k: usize, e: u64)
        requires
            old(self).arena_wf(),
            (j as int) < old(self).pages@.len(),
            old(self).is_table(j as int),
            k < ENTRY_COUNT_2LVL,
        ensures
            final(self).arena_wf(),
            final(self).base == old(self).base,
            final(self).pages@.len() == old(self).pages@.len(),
            forall|j2: int| 0 <= j2 < old(self).pages@.len() && j2 != j as int
                ==> final(self).pages@[j2] == old(self).pages@[j2],
            final(self).is_table(j as int),
            final(self).tblv(j as int) == old(self).tblv(j as int).update(k as int, e),
    {
        match &mut self.pages[j] {
            PageContent::Table { entries } => {
                entries[k] = e;
            }
            PageContent::Data { .. } => {}
        }
    }

    /// Writes one byte of the data page `j`.
    pub fn set_data_byte(&mut self, j: usize, k: usize, b: u8)
        requires
            old(self).arena_wf(),
            (j as int) < old(self).pages@.len(),
            old(self).is_data(j as int),
            k < 4096,
        ensures
            final(self).arena_wf(),
            final(self).base == old(self).base,
            final(self).pages@.len() == old(self).pages@.len(),
            forall|j2: int| 0 <= j2 < old(self).pages@.len() && j2 != j as int
                ==> final(self).pages@[j2] == old(self).pages@[j2],
            final(self).is_data(j as int),
            final(self).datav(j as int) == old(self).datav(j as int).update(k as int, b),
    {
        match &mut self.pages[j] {
            PageContent::Data { bytes } => {
                bytes[k] = b;
            }
            PageContent::Table { .. } => {}
        }
    }

    /// Reads one byte of a data page.
    pub fn read_byte(&self, pa: u64, offset: usize) -> (b: u8)
        requires
            self.arena_wf(),
            self.owns(pa),
            self.is_data(self.idx_of(pa)),
            offset < 4096,
        ensures
            b == self.datav(self.idx_of(pa))[offset as int],
    {
        proof {
            lemma_idx_of(*self, pa);
        }
        let n = self.pages.len();
        let jq = (pa - self.base) / PAGE_SIZE;
        proof {
            assert(n == self.pages@.len());
            assert(jq == self.idx_of(pa));
            assert(jq < n as u64);
        }
        let j = jq as usize;
        match &self.pages[j] {
            PageContent::Data { bytes } => bytes[offset],
            PageContent::Table { .. } => 0,
        }
    }
}

/// The index of an owned address is in range and recovers the address.
pub proof fn lemma_idx_of(m: PhysMem, pa: u64)
    requires
        m.owns(pa),
    ensures
        0 <= m.idx_of(pa) < m.pages@.len(),
        m.page_addr(m.idx_of(pa)) == pa,
{
    let d = (pa - m.base) as int;
    vstd::arithmetic::div_mod::lemma_fundamental_div_mod(d, 4096);
}

/// The allocator never hands out the same physical address twice within one
/// boot session: pages allocated at different moments have different
/// addresses.
pub proof fn lemma_allocator_unique(m: PhysMem, i: int, j: int)
    requires
        0 <= i < m.pages@.len(),
        0 <= j < m.pages@.len(),
        i != j,
    ensures
        m.page_addr(i) != m.page_addr(j),
{
}

} // verus!
