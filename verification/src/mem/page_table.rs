//! Sv39 page tables and address spaces.
//!
//! A [`PageTable`] holds 512 entries; an [`AddressSpace`] owns a root table
//! plus the level-1 and level-0 tables it created, each backed by a frame
//! from the [`FrameAllocator`].  [`PageTableManager`] keeps the kernel space
//! and the user spaces indexed by task id.
use vstd::prelude::*;
use crate::mem::addr::{PhysicalAddr, VirtualAddr, spec_ppn, spec_vpn0, spec_vpn1, spec_vpn2};
use crate::mem::frame::{Frame, FrameAllocator, FRAME_SIZE};
use crate::task::Tid;

verus! {

/// Number of entries in one page table.
pub const PTE_NUMBER: usize = 512;

/// Mask of the 44-bit physical page number field of an entry.
pub const PTE_PPN_MASK: u64 = 0xfff_ffff_ffff;

/// Errors of the memory-management layer.
#[derive(Clone, Copy, Debug, PartialEq, Eq, Structural)]
pub enum MemError {
    /// No physical frame is left.
    OutOfMemory,
    /// An entry refers to an intermediate table this space does not own.
    PageTableMissing,
    /// No user address space is registered for the task.
    AddressSpaceNotFound,
}

/// Bit `i` of `e`.
pub open spec fn spec_bit(e: u64, i: u64) -> bool {
    (e >> i) & 1u64 == 1u64
}

/// The physical page number stored in an entry (bits 10..54).
pub open spec fn spec_pte_ppn(e: u64) -> u64 {
    (e >> 10u64) & PTE_PPN_MASK
}

/// Setting or clearing flag bit `i` leaves the other flag bits and the
/// page number alone.
proof fn lemma_update_bit(e: u64, i: u64, b: bool, j: u64)
    requires
        i < 10,
        j < 10,
    ensures
        spec_bit(if b { e | (1u64 << i) } else { e & !(1u64 << i) }, j)
            == if j == i { b } else { spec_bit(e, j) },
        spec_pte_ppn(if b { e | (1u64 << i) } else { e & !(1u64 << i) }) == spec_pte_ppn(e),
{
    if b {
        assert(spec_bit(e | (1u64 << i), j) == if j == i { true } else { spec_bit(e, j) }
            && spec_pte_ppn(e | (1u64 << i)) == spec_pte_ppn(e)) by (bit_vector)
            requires i < 10u64, j < 10u64;
    } else {
        assert(spec_bit(e & !(1u64 << i), j) == if j == i { false } else { spec_bit(e, j) }
            && spec_pte_ppn(e & !(1u64 << i)) == spec_pte_ppn(e)) by (bit_vector)
            requires i < 10u64, j < 10u64;
    }
}

/// Replacing the page number leaves the flag bits alone.
proof fn lemma_update_ppn(e: u64, p: u64, j: u64)
    requires
        j < 10,
    ensures
        spec_bit((e & !(PTE_PPN_MASK << 10u64)) | ((p & PTE_PPN_MASK) << 10u64), j)
            == spec_bit(e, j),
        spec_pte_ppn((e & !(PTE_PPN_MASK << 10u64)) | ((p & PTE_PPN_MASK) << 10u64))
            == p & PTE_PPN_MASK,
{
    assert(spec_bit((e & !(0xfff_ffff_ffffu64 << 10u64)) | ((p & 0xfff_ffff_ffffu64) << 10u64), j)
        == spec_bit(e, j)
        && ((((e & !(0xfff_ffff_ffffu64 << 10u64)) | ((p & 0xfff_ffff_ffffu64) << 10u64))
            >> 10u64) & 0xfff_ffff_ffffu64) == p & 0xfff_ffff_ffffu64) by (bit_vector)
        requires j < 10u64;
}

/// The all-zero entry has no flag set and page number zero.
proof fn lemma_zero_entry(j: u64)
    requires
        j < 10,
    ensures
        !spec_bit(0u64, j),
        spec_pte_ppn(0u64) == 0,
{
    assert(!spec_bit(0u64, j) && spec_pte_ppn(0u64) == 0u64) by (bit_vector)
        requires j < 10u64;
}

/// A page table entry: flags in bits 0..8 (V R W X U G A D) and the
/// physical page number in bits 10..54.
#[derive(Clone, Copy, Debug, PartialEq, Eq, Structural)]
pub struct PageTableEntry(pub u64);

/// Page-table-entry permission flags, laid out like the low byte of an
/// entry (V R W X U G A D in bits 0..8).
#[derive(Clone, Copy, Debug, PartialEq, Eq, Structural)]
pub struct PageTableEntryFlags(pub u64);

/// Flag bit indices shared by entries and flag sets.
pub const V_BIT: u64 = 0;
pub const R_BIT: u64 = 1;
pub const W_BIT: u64 = 2;
pub const X_BIT: u64 = 3;
pub const U_BIT: u64 = 4;
pub const G_BIT: u64 = 5;
pub const A_BIT: u64 = 6;
pub const D_BIT: u64 = 7;

impl PageTableEntry {
    /// Whether flag bit `i` is set.
    pub open spec fn flag(self, i: u64) -> bool {
        spec_bit(self.0, i)
    }

    /// The stored physical page number.
    pub open spec fn spec_page_number(self) -> u64 {
        spec_pte_ppn(self.0)
    }

    /// The physical address the entry points at.
    pub open spec fn target(self) -> u64 {
        (self.spec_page_number() as int * FRAME_SIZE as int) as u64
    }

    /// The empty (invalid) entry.
    pub fn new() -> (r: Self)
        ensures
            r.0 == 0,
            forall|j: u64| j < 10 ==> !#[trigger] r.flag(j),
            r.spec_page_number() == 0,
    {
        proof {
            assert forall|j: u64| j < 10 implies !#[trigger] spec_bit(0u64, j) by {
                lemma_zero_entry(j);
            }
            lemma_zero_entry(0);
        }
        PageTableEntry(0)
    }

    /// Reads flag bit `i`.
    pub fn bit(&self, i: u64) -> (r: bool)
        requires
            i < 10,
        ensures
            r == self.flag(i),
    {
        (self.0 >> i) & 1 == 1
    }

    /// Sets or clears flag bit `i`, leaving everything else alone.
    pub fn set_bit(&mut self, i: u64, b: bool)
        requires
            i < 10,
        ensures
            final(self).flag(i) == b,
            forall|j: u64| j < 10 && j != i ==> #[trigger] final(self).flag(j) == old(self).flag(j),
            final(self).spec_page_number() == old(self).spec_page_number(),
    {
        let e = self.0;
        let n = if b { e | (1u64 << i) } else { e & !(1u64 << i) };
        proof {
            lemma_update_bit(e, i, b, i);
            assert forall|j: u64| j < 10 && j != i implies #[trigger] spec_bit(n, j) == spec_bit(e, j) by {
                lemma_update_bit(e, i, b, j);
            }
        }
        self.0 = n;
    }

    /// Valid bit.
    pub fn v(&self) -> (r: bool) ensures r == self.flag(V_BIT) { self.bit(V_BIT) }
    /// Readable bit.
    pub fn r(&self) -> (r: bool) ensures r == self.flag(R_BIT) { self.bit(R_BIT) }
    /// Writable bit.
    pub fn w(&self) -> (r: bool) ensures r == self.flag(W_BIT) { self.bit(W_BIT) }
    /// Executable bit.
    pub fn x(&self) -> (r: bool) ensures r == self.flag(X_BIT) { self.bit(X_BIT) }

    /// Sets the valid bit.
    pub fn set_v(&mut self, b: bool)
        ensures
            final(self).flag(V_BIT) == b,
            forall|j: u64| j < 10 && j != V_BIT ==> #[trigger] final(self).flag(j) == old(self).flag(j),
            final(self).spec_page_number() == old(self).spec_page_number(),
    {
        self.set_bit(V_BIT, b)
    }

    /// The physical page number.
    pub fn ppn(&self) -> (r: u64)
        ensures
            r == self.spec_page_number(),
            r <= PTE_PPN_MASK,
    {
        let e = self.0;
        let r = (e >> 10) & PTE_PPN_MASK;
        assert(r <= PTE_PPN_MASK) by (bit_vector) requires r == (e >> 10u64) & 0xfff_ffff_ffffu64;
        r
    }

    /// Replaces the physical page number (truncated to 44 bits), keeping
    /// the flags.
    pub fn set_ppn(&mut self, p: u64)
        ensures
            final(self).spec_page_number() == p & PTE_PPN_MASK,
            forall|j: u64| j < 10 ==> #[trigger] final(self).flag(j) == old(self).flag(j),
    {
        let e = self.0;
        let n = (e & !(PTE_PPN_MASK << 10)) | ((p & PTE_PPN_MASK) << 10);
        proof {
            lemma_update_ppn(e, p, 0);
            assert forall|j: u64| j < 10 implies #[trigger] spec_bit(n, j) == spec_bit(e, j) by {
                lemma_update_ppn(e, p, j);
            }
        }
        self.0 = n;
    }

    /// The low flag byte (bits 0..8).
    pub fn flags(&self) -> (r: u64)
        ensures
            r == self.0 % 256,
    {
        self.0 % 256
    }
}

impl PageTableEntryFlags {
    /// Whether flag bit `i` is set.
    pub open spec fn flag(self, i: u64) -> bool {
        spec_bit(self.0, i)
    }

    /// No flag set.
    pub fn new() -> (r: Self)
        ensures
            forall|j: u64| j < 10 ==> !#[trigger] r.flag(j),
    {
        proof {
            assert forall|j: u64| j < 10 implies !#[trigger] spec_bit(0u64, j) by {
                lemma_zero_entry(j);
            }
        }
        PageTableEntryFlags(0)
    }

    /// Reads flag bit `i`.
    pub fn bit(&self, i: u64) -> (r: bool)
        requires
            i < 10,
        ensures
            r == self.flag(i),
    {
        (self.0 >> i) & 1 == 1
    }

    /// Sets or clears flag bit `i`.
    pub fn set_bit(&mut self, i: u64, b: bool)
        requires
            i < 10,
        ensures
            final(self).flag(i) == b,
            forall|j: u64| j < 10 && j != i ==> #[trigger] final(self).flag(j) == old(self).flag(j),
    {
        let e = self.0;
        let n = if b { e | (1u64 << i) } else { e & !(1u64 << i) };
        proof {
            lemma_update_bit(e, i, b, i);
            assert forall|j: u64| j < 10 && j != i implies #[trigger] spec_bit(n, j) == spec_bit(e, j) by {
                lemma_update_bit(e, i, b, j);
            }
        }
        self.0 = n;
    }

    /// Readable bit.
    pub fn r(&self) -> (r: bool) ensures r == self.flag(R_BIT) { self.bit(R_BIT) }
    /// Writable bit.
    pub fn w(&self) -> (r: bool) ensures r == self.flag(W_BIT) { self.bit(W_BIT) }
    /// Executable bit.
    pub fn x(&self) -> (r: bool) ensures r == self.flag(X_BIT) { self.bit(X_BIT) }
    /// User bit.
    pub fn u(&self) -> (r: bool) ensures r == self.flag(U_BIT) { self.bit(U_BIT) }
    /// Global bit.
    pub fn g(&self) -> (r: bool) ensures r == self.flag(G_BIT) { self.bit(G_BIT) }
    /// Accessed bit.
    pub fn a(&self) -> (r: bool) ensures r == self.flag(A_BIT) { self.bit(A_BIT) }
    /// Dirty bit.
    pub fn d(&self) -> (r: bool) ensures r == self.flag(D_BIT) { self.bit(D_BIT) }
}


/// The page-aligned physical address an entry's page number denotes.
pub open spec fn spec_target(e: PageTableEntry) -> u64 {
    (e.spec_page_number() as int * FRAME_SIZE as int) as u64
}

/// A page-aligned address below 2^56 is the target of its page number.
proof fn lemma_target_roundtrip(a: u64)
    requires
        a % FRAME_SIZE == 0,
        a < crate::mem::frame::MAX_PHYS,
    ensures
        spec_ppn(a) & PTE_PPN_MASK == spec_ppn(a),
        (spec_ppn(a) as int * FRAME_SIZE as int) == a,
{
    let p = spec_ppn(a);
    assert(a / 4096 < 0x1000_0000_0000) by (nonlinear_arith) requires a < 0x100_0000_0000_0000u64;
    assert(p == a / 4096);
    assert(p <= PTE_PPN_MASK);
    assert(p & 0xfff_ffff_ffffu64 == p) by (bit_vector) requires p <= 0xfff_ffff_ffffu64;
    assert(p as int * 4096 == a) by (nonlinear_arith) requires a % 4096 == 0, p == a / 4096;
}

/// One page table: 512 entries.
pub struct PageTable {
    entries: Vec<PageTableEntry>,
}

impl PageTable {
    /// The entries of the table.
    pub closed spec fn view_entries(&self) -> Seq<PageTableEntry> {
        self.entries@
    }

    /// A table has exactly 512 entries.
    pub closed spec fn wf(&self) -> bool {
        self.entries@.len() == PTE_NUMBER
    }

    /// A table of 512 empty entries.
    pub fn new() -> (r: PageTable)
        ensures
            r.wf(),
            forall|i: int| 0 <= i < PTE_NUMBER ==> (#[trigger] r.view_entries()[i]).0 == 0,
    {
        let mut entries: Vec<PageTableEntry> = Vec::new();
        let mut i: usize = 0;
        while i < PTE_NUMBER
            invariant
                i <= PTE_NUMBER,
                entries@.len() == i,
                forall|k: int| 0 <= k < i ==> (#[trigger] entries@[k]).0 == 0,
            decreases PTE_NUMBER - i,
        {
            entries.push(PageTableEntry::new());
            i = i + 1;
        }
        PageTable { entries }
    }

    /// Stores `entry` at `index`, which must lie inside the table.
    pub fn insert(&mut self, entry: PageTableEntry, index: usize)
        requires
            old(self).wf(),
            index < PTE_NUMBER,
        ensures
            final(self).wf(),
            final(self).view_entries() == old(self).view_entries().update(index as int, entry),
    {
        self.entries.set(index, entry);
    }

    /// The entry at `index`, or `None` past the end.
    pub fn nth(&self, index: usize) -> (r: Option<PageTableEntry>)
        requires
            self.wf(),
        ensures
            r == if index < PTE_NUMBER { Some(self.view_entries()[index as int]) } else { None },
    {
        if index < self.entries.len() {
            Some(self.entries[index])
        } else {
            None
        }
    }

    /// The page-aligned physical address the entry at `index` points to.
    pub fn nth_as_addr(&self, index: usize) -> (r: Option<PhysicalAddr>)
        requires
            self.wf(),
        ensures
            r == if index < PTE_NUMBER {
                Some(PhysicalAddr(spec_target(self.view_entries()[index as int])))
            } else {
                None
            },
    {
        match self.nth(index) {
            Some(pte) => {
                let p = pte.ppn();
                let pa = PhysicalAddr::from_ppn(p);
                proof {
                    assert(p % 0x1000_0000_0000 == p);
                }
                Some(pa)
            },
            None => None,
        }
    }
}

/// A page table backed by the physical frame it lives in.
pub struct PageTableHandle {
    page: Frame,
    table: PageTable,
}

impl PageTableHandle {
    /// Physical address of the frame holding the table.
    pub closed spec fn addr(&self) -> u64 {
        self.page.start
    }

    /// The table's entries.
    pub closed spec fn view_entries(&self) -> Seq<PageTableEntry> {
        self.table.view_entries()
    }

    /// The table has 512 entries and its frame is page aligned and
    /// addressable.
    pub closed spec fn wf(&self) -> bool {
        &&& self.table.wf()
        &&& self.page.start % FRAME_SIZE == 0
        &&& self.page.start < crate::mem::frame::MAX_PHYS
    }

    /// Wraps an existing table and the frame it occupies.
    pub fn new(page_table: PageTable, page: Frame) -> (r: Self)
        ensures
            r.addr() == page.start,
            r.view_entries() == page_table.view_entries(),
    {
        PageTableHandle { page, table: page_table }
    }

    /// Allocates a frame and initialises it as an empty table.
    pub fn create(alloc: &mut FrameAllocator) -> (r: Result<Self, MemError>)
        requires
            old(alloc).wf(),
        ensures
            final(alloc).wf(),
            match r {
                Ok(h) => {
                    &&& h.wf()
                    &&& !old(alloc).used().contains(h.addr())
                    &&& final(alloc).used() == old(alloc).used().insert(h.addr())
                    &&& forall|i: int| 0 <= i < PTE_NUMBER ==> (#[trigger] h.view_entries()[i]).0 == 0
                    &&& final(alloc).page_count() + 1 == old(alloc).page_count()
                },
                Err(e) => e == MemError::OutOfMemory && final(alloc).used() == old(alloc).used()
                    && old(alloc).page_count() == 0 && final(alloc).page_count() == 0,
            },
    {
        match alloc.alloc_frame(FRAME_SIZE) {
            Some(page) => Ok(PageTableHandle { page, table: PageTable::new() }),
            None => Err(MemError::OutOfMemory),
        }
    }

    /// Physical address of the frame holding the table.
    pub fn as_phys_addr(&self) -> (r: PhysicalAddr)
        ensures
            r.0 == self.addr(),
    {
        PhysicalAddr(self.page.start)
    }

    /// Reads entry `i`.
    pub fn entry(&self, i: usize) -> (r: PageTableEntry)
        requires
            self.wf(),
            i < PTE_NUMBER,
        ensures
            r == self.view_entries()[i as int],
    {
        self.table.entries[i]
    }

    /// Writes entry `i`.
    pub fn set_entry(&mut self, i: usize, e: PageTableEntry)
        requires
            old(self).wf(),
            i < PTE_NUMBER,
        ensures
            final(self).wf(),
            final(self).addr() == old(self).addr(),
            final(self).view_entries() == old(self).view_entries().update(i as int, e),
    {
        self.table.insert(e, i);
    }

    /// Copies entries `256..512` (the upper half of the address space).
    pub fn copy_high_half(&self, to: &mut PageTableHandle)
        requires
            self.wf(),
            old(to).wf(),
        ensures
            final(to).wf(),
            final(to).addr() == old(to).addr(),
            forall|i: int| 0 <= i < 256 ==> #[trigger] final(to).view_entries()[i] == old(to).view_entries()[i],
            forall|i: int| 256 <= i < 512 ==> #[trigger] final(to).view_entries()[i] == self.view_entries()[i],
    {
        let mut i: usize = 256;
        while i < PTE_NUMBER
            invariant
                256 <= i <= PTE_NUMBER,
                self.wf(),
                to.wf(),
                to.addr() == old(to).addr(),
                forall|k: int| 0 <= k < 256 ==> #[trigger] to.view_entries()[k] == old(to).view_entries()[k],
                forall|k: int| 256 <= k < i ==> #[trigger] to.view_entries()[k] == self.view_entries()[k],
            decreases PTE_NUMBER - i,
        {
            let e = self.entry(i);
            to.set_entry(i, e);
            i = i + 1;
        }
    }

    /// Copies entries `0..256` (the lower half of the address space).
    pub fn copy_low_half(&self, to: &mut PageTableHandle)
        requires
            self.wf(),
            old(to).wf(),
        ensures
            final(to).wf(),
            final(to).addr() == old(to).addr(),
            forall|i: int| 0 <= i < 256 ==> #[trigger] final(to).view_entries()[i] == self.view_entries()[i],
            forall|i: int| 256 <= i < 512 ==> #[trigger] final(to).view_entries()[i] == old(to).view_entries()[i],
    {
        let mut i: usize = 0;
        while i < 256
            invariant
                i <= 256,
                self.wf(),
                to.wf(),
                to.addr() == old(to).addr(),
                forall|k: int| 0 <= k < i ==> #[trigger] to.view_entries()[k] == self.view_entries()[k],
                forall|k: int| 256 <= k < 512 ==> #[trigger] to.view_entries()[k] == old(to).view_entries()[k],
            decreases 256 - i,
        {
            let e = self.entry(i);
            to.set_entry(i, e);
            i = i + 1;
        }
    }

    /// Copies all 512 entries.
    pub fn copy_from(&self, to: &mut PageTableHandle)
        requires
            self.wf(),
            old(to).wf(),
        ensures
            final(to).wf(),
            final(to).addr() == old(to).addr(),
            final(to).view_entries() == self.view_entries(),
    {
        self.copy_low_half(to);
        self.copy_high_half(to);
        assert(to.view_entries() =~= self.view_entries());
    }
}


/// Some table in `s` lives at physical address `a`.
pub open spec fn has_table(s: Seq<PageTableHandle>, a: u64) -> bool {
    exists|i: int| 0 <= i < s.len() && (#[trigger] s[i]).addr() == a
}

/// The entries of the table in `s` at physical address `a`.
pub open spec fn table_of(s: Seq<PageTableHandle>, a: u64) -> Seq<PageTableEntry> {
    s[choose|i: int| 0 <= i < s.len() && (#[trigger] s[i]).addr() == a].view_entries()
}

/// Tables in `s` live in pairwise different frames.
pub open spec fn distinct_pages(s: Seq<PageTableHandle>) -> bool {
    forall|i: int, j: int| 0 <= i < j < s.len() ==> (#[trigger] s[i]).addr() != (#[trigger] s[j]).addr()
}

/// Every table in `s` is well formed.
pub open spec fn all_wf(s: Seq<PageTableHandle>) -> bool {
    forall|i: int| 0 <= i < s.len() ==> (#[trigger] s[i]).wf()
}

proof fn lemma_table_of(s: Seq<PageTableHandle>, a: u64, i: int)
    requires
        distinct_pages(s),
        0 <= i < s.len(),
        s[i].addr() == a,
    ensures
        has_table(s, a),
        table_of(s, a) == s[i].view_entries(),
{
    let j = choose|j: int| 0 <= j < s.len() && (#[trigger] s[j]).addr() == a;
    assert(0 <= j < s.len() && s[j].addr() == a);
    if j != i {
        if j < i {
            assert(s[j].addr() != s[i].addr());
        } else {
            assert(s[i].addr() != s[j].addr());
        }
    }
}

/// Appending a table in a frame not used by `s` keeps the frames distinct.
proof fn lemma_push_fresh(s: Seq<PageTableHandle>, h: PageTableHandle)
    requires
        distinct_pages(s),
        all_wf(s),
        h.wf(),
        !has_table(s, h.addr()),
    ensures
        distinct_pages(s.push(h)),
        all_wf(s.push(h)),
        forall|a: u64| #[trigger] has_table(s.push(h), a) == (has_table(s, a) || a == h.addr()),
{
    let t = s.push(h);
    assert forall|i: int, j: int| 0 <= i < j < t.len() implies
        (#[trigger] t[i]).addr() != (#[trigger] t[j]).addr() by {
        if j == s.len() {
            assert(t[i] == s[i]);
        } else {
            assert(t[i] == s[i] && t[j] == s[j]);
        }
    }
    assert forall|a: u64| #[trigger] has_table(t, a) == (has_table(s, a) || a == h.addr()) by {
        if has_table(s, a) {
            let k = choose|k: int| 0 <= k < s.len() && (#[trigger] s[k]).addr() == a;
            assert(t[k] == s[k]);
        }
        if a == h.addr() {
            assert(t[s.len() as int] == h);
        }
        if has_table(t, a) {
            let k = choose|k: int| 0 <= k < t.len() && (#[trigger] t[k]).addr() == a;
            if k < s.len() {
                assert(t[k] == s[k]);
            }
        }
    }
    assert forall|i: int| 0 <= i < t.len() implies (#[trigger] t[i]).wf() by {
        if i < s.len() {
            assert(t[i] == s[i]);
        }
    }
}

/// Replacing a table by one in the same frame keeps the frames distinct.
proof fn lemma_update_same_frame(s: Seq<PageTableHandle>, i: int, h: PageTableHandle)
    requires
        distinct_pages(s),
        all_wf(s),
        h.wf(),
        0 <= i < s.len(),
        h.addr() == s[i].addr(),
    ensures
        distinct_pages(s.update(i, h)),
        all_wf(s.update(i, h)),
        forall|a: u64| #[trigger] has_table(s.update(i, h), a) == has_table(s, a),
        forall|a: u64| a != h.addr() && has_table(s, a) ==> #[trigger] table_of(s.update(i, h), a) == table_of(s, a),
{
    let t = s.update(i, h);
    assert forall|p: int, q: int| 0 <= p < q < t.len() implies
        (#[trigger] t[p]).addr() != (#[trigger] t[q]).addr() by {
        assert(t[p].addr() == s[p].addr() && t[q].addr() == s[q].addr());
    }
    assert forall|a: u64| #[trigger] has_table(t, a) == has_table(s, a) by {
        if has_table(s, a) {
            let k = choose|k: int| 0 <= k < s.len() && (#[trigger] s[k]).addr() == a;
            assert(t[k].addr() == s[k].addr());
        }
        if has_table(t, a) {
            let k = choose|k: int| 0 <= k < t.len() && (#[trigger] t[k]).addr() == a;
            assert(t[k].addr() == s[k].addr());
        }
    }
    assert forall|a: u64| a != h.addr() && has_table(s, a) implies #[trigger] table_of(t, a) == table_of(s, a) by {
        let k = choose|k: int| 0 <= k < s.len() && (#[trigger] s[k]).addr() == a;
        assert(k != i);
        lemma_table_of(s, a, k);
        assert(t[k] == s[k]);
        lemma_table_of(t, a, k);
    }
    assert forall|p: int| 0 <= p < t.len() implies (#[trigger] t[p]).wf() by {
        if p != i {
            assert(t[p] == s[p]);
        }
    }
}

/// Finds the index of the table living at physical address `a`.
fn find_table(tables: &Vec<PageTableHandle>, a: u64) -> (r: Option<usize>)
    ensures
        match r {
            Some(i) => i < tables@.len() && tables@[i as int].addr() == a,
            None => !has_table(tables@, a),
        },
{
    let mut i: usize = 0;
    while i < tables.len()
        invariant
            i <= tables@.len(),
            forall|k: int| 0 <= k < i ==> (#[trigger] tables@[k]).addr() != a,
        decreases tables@.len() - i,
    {
        if tables[i].page.start == a {
            return Some(i);
        }
        i = i + 1;
    }
    None
}

/// The physical address an entry points at, as an exec value.
fn entry_target(e: PageTableEntry) -> (r: u64)
    ensures
        r == spec_target(e),
{
    let p = e.ppn();
    let a = PhysicalAddr::from_ppn(p);
    proof {
        assert(p % 0x1000_0000_0000 == p);
    }
    a.0
}

/// A leaf entry that maps to physical address `pa` with the permissions of
/// `flags` (valid bit set; R W X U G A D copied from `flags`).
pub open spec fn maps_to(e: PageTableEntry, pa: u64, flags: PageTableEntryFlags) -> bool {
    &&& e.flag(V_BIT)
    &&& e.flag(R_BIT) == flags.flag(R_BIT)
    &&& e.flag(W_BIT) == flags.flag(W_BIT)
    &&& e.flag(X_BIT) == flags.flag(X_BIT)
    &&& e.flag(U_BIT) == flags.flag(U_BIT)
    &&& e.flag(G_BIT) == flags.flag(G_BIT)
    &&& e.flag(A_BIT) == flags.flag(A_BIT)
    &&& e.flag(D_BIT) == flags.flag(D_BIT)
    &&& e.spec_page_number() == spec_ppn(pa)
}

/// A valid entry pointing at the table in frame `a`, built from `e`.
fn link_entry(e: PageTableEntry, a: PhysicalAddr) -> (r: PageTableEntry)
    requires
        a.0 % FRAME_SIZE == 0,
        a.0 < crate::mem::frame::MAX_PHYS,
    ensures
        r.flag(V_BIT),
        spec_target(r) == a.0,
{
    let mut r = e;
    r.set_ppn(a.ppn());
    r.set_v(true);
    proof {
        lemma_target_roundtrip(a.0);
    }
    r
}

/// An address space: a root table plus the level-1 and level-0 tables it
/// created, kept apart by level.
pub struct AddressSpace {
    root: PageTableHandle,
    l1_tables: Vec<PageTableHandle>,
    l0_tables: Vec<PageTableHandle>,
}

impl AddressSpace {
    /// Physical address of the root table.
    pub closed spec fn root_addr(&self) -> u64 {
        self.root.addr()
    }

    /// Entries of the root table.
    pub closed spec fn root_entries(&self) -> Seq<PageTableEntry> {
        self.root.view_entries()
    }

    /// Frames of all tables owned by this space.
    pub closed spec fn pages(&self) -> Set<u64> {
        Set::new(|a: u64| a == self.root.addr() || has_table(self.l1_tables@, a)
            || has_table(self.l0_tables@, a))
    }

    /// All tables are well formed and live in distinct frames.
    pub closed spec fn wf(&self) -> bool {
        &&& self.root.wf()
        &&& all_wf(self.l1_tables@)
        &&& all_wf(self.l0_tables@)
        &&& distinct_pages(self.l1_tables@)
        &&& distinct_pages(self.l0_tables@)
        &&& !has_table(self.l1_tables@, self.root.addr())
        &&& !has_table(self.l0_tables@, self.root.addr())
        &&& forall|a: u64| !(#[trigger] has_table(self.l1_tables@, a) && has_table(self.l0_tables@, a))
    }

    /// Every table frame of this space is in use in `alloc`.
    pub closed spec fn owned_by(&self, alloc: &FrameAllocator) -> bool {
        forall|a: u64| #[trigger] self.pages().contains(a) ==> alloc.used().contains(a)
    }

    /// The root entry for `va`.
    pub closed spec fn root_entry(&self, va: u64) -> PageTableEntry {
        self.root.view_entries()[spec_vpn2(va) as int]
    }

    /// The level-1 entry for `va` (meaningful when the root entry leads to
    /// an owned level-1 table).
    pub closed spec fn l1_entry(&self, va: u64) -> PageTableEntry {
        table_of(self.l1_tables@, spec_target(self.root_entry(va)))[spec_vpn1(va) as int]
    }

    /// The level-0 entry for `va` (meaningful when the path leads to an
    /// owned level-0 table).
    pub closed spec fn l0_entry(&self, va: u64) -> PageTableEntry {
        table_of(self.l0_tables@, spec_target(self.l1_entry(va)))[spec_vpn0(va) as int]
    }

    /// The root entry for `va` leads to a level-1 table of this space.
    pub closed spec fn reaches_l1(&self, va: u64) -> bool {
        self.root_entry(va).flag(V_BIT) && has_table(self.l1_tables@, spec_target(self.root_entry(va)))
    }

    /// The path for `va` leads to a level-0 table of this space.
    pub closed spec fn reaches_l0(&self, va: u64) -> bool {
        self.reaches_l1(va) && self.l1_entry(va).flag(V_BIT)
            && has_table(self.l0_tables@, spec_target(self.l1_entry(va)))
    }

    /// The leaf entry `va` translates through, if the walk over this
    /// space's tables reaches a valid one.
    pub closed spec fn translate(&self, va: u64) -> Option<PageTableEntry> {
        if self.reaches_l0(va) && self.l0_entry(va).flag(V_BIT) {
            Some(self.l0_entry(va))
        } else {
            None
        }
    }

    /// A valid entry on the path of `va` refers to a table this space does
    /// not own, so the walk cannot continue.
    pub closed spec fn blocked(&self, va: u64) -> bool {
        ||| (self.root_entry(va).flag(V_BIT) && !self.reaches_l1(va))
        ||| (self.reaches_l1(va) && self.l1_entry(va).flag(V_BIT) && !self.reaches_l0(va))
    }

    /// The tables form a tree whose only loose ends lead into `foreign`:
    /// a walk is blocked only at a root entry whose table lies in
    /// `foreign`, root entries that lead to the same level-1 table sit in
    /// the same slot, and level-1 entries that lead to the same level-0
    /// table sit on the same path.
    pub closed spec fn tree_shaped_in(&self, foreign: Set<u64>) -> bool {
        &&& forall|w: u64| #[trigger] self.blocked(w) ==> !self.reaches_l1(w)
            && foreign.contains(spec_target(self.root_entry(w)))
        &&& forall|v: u64, w: u64| #[trigger] self.reaches_l1(v) && #[trigger] self.reaches_l1(w)
            && spec_target(self.root_entry(v)) == spec_target(self.root_entry(w)) ==> spec_vpn2(v) == spec_vpn2(w)
        &&& forall|v: u64, w: u64| #[trigger] self.reaches_l0(v) && #[trigger] self.reaches_l0(w)
            && spec_target(self.l1_entry(v)) == spec_target(self.l1_entry(w))
            ==> spec_vpn2(v) == spec_vpn2(w) && spec_vpn1(v) == spec_vpn1(w)
    }

    /// The tables form a tree and no walk is blocked.
    pub open spec fn tree_shaped(&self) -> bool {
        self.tree_shaped_in(Set::empty())
    }

    /// In a tree-shaped space two addresses share a leaf slot only when
    /// all three of their table indices agree.
    pub proof fn lemma_tree_leaf(s: AddressSpace, v: u64, w: u64, foreign: Set<u64>)
        requires
            s.tree_shaped_in(foreign),
            s.same_leaf(v, w),
        ensures
            spec_vpn2(v) == spec_vpn2(w),
            spec_vpn1(v) == spec_vpn1(w),
            spec_vpn0(v) == spec_vpn0(w),
    {
        assert(s.reaches_l0(v) && s.reaches_l0(w));
    }

    /// Addresses that share a leaf slot translate through the same entry.
    pub proof fn lemma_same_leaf_translate(s: AddressSpace, v: u64, w: u64)
        requires
            s.same_leaf(v, w),
        ensures
            s.translate(v) == s.translate(w),
    {
    }

    /// A space with no tables of its own whose root copies the low half of
    /// the root of a tree-shaped space `k`, the high half left empty, is
    /// tree-shaped with its loose ends in the tables of `k`.
    proof fn lemma_fresh_user_tree(k: AddressSpace, space: AddressSpace)
        requires
            space.l1_tables@.len() == 0,
            space.l0_tables@.len() == 0,
            forall|i: int| 0 <= i < 256 ==> #[trigger] space.root.view_entries()[i] == k.root.view_entries()[i],
            forall|i: int| 256 <= i < 512 ==> (#[trigger] space.root.view_entries()[i]).0 == 0,
        ensures
            k.tree_shaped() ==> space.tree_shaped_in(k.pages()),
    {
        if k.tree_shaped() {
            assert forall|w: u64| #[trigger] space.blocked(w) implies !space.reaches_l1(w)
                && k.pages().contains(spec_target(space.root_entry(w))) by {
                assert(!has_table(space.l1_tables@, spec_target(space.root_entry(w))));
                if spec_vpn2(w) < 256 {
                    assert(space.root_entry(w) == k.root_entry(w));
                    assert(!k.blocked(w));
                } else {
                    assert(space.root_entry(w).0 == 0);
                    lemma_zero_entry(V_BIT);
                }
            }
            assert forall|w: u64| !(#[trigger] space.reaches_l1(w)) by {
                assert(!has_table(space.l1_tables@, spec_target(space.root_entry(w))));
            }
        }
    }

    /// How many tables mapping `va` has to create: both intermediate
    /// tables when the root entry is not valid, the level-0 table when only
    /// the level-1 entry is not valid.
    pub open spec fn tables_needed(&self, va: u64) -> nat {
        if !self.root_entry(va).flag(V_BIT) {
            2
        } else if self.reaches_l1(va) && !self.l1_entry(va).flag(V_BIT) {
            1
        } else {
            0
        }
    }

    /// An address space with a fresh, empty root table.
    pub fn create(alloc: &mut FrameAllocator) -> (r: Result<Self, MemError>)
        requires
            old(alloc).wf(),
        ensures
            final(alloc).wf(),
            match r {
                Ok(s) => {
                    &&& s.wf()
                    &&& s.owned_by(final(alloc))
                    &&& !old(alloc).used().contains(s.root_addr())
                    &&& final(alloc).used() == old(alloc).used().insert(s.root_addr())
                    &&& forall|va: u64| #[trigger] s.translate(va) == None::<PageTableEntry>
                    &&& final(alloc).page_count() + 1 == old(alloc).page_count()
                    &&& s.tree_shaped()
                },
                Err(e) => e == MemError::OutOfMemory && final(alloc).used() == old(alloc).used()
                    && old(alloc).page_count() == 0 && final(alloc).page_count() == 0,
            },
    {
        let root = PageTableHandle::create(alloc)?;
        let s = AddressSpace { root, l1_tables: Vec::new(), l0_tables: Vec::new() };
        proof {
            assert forall|va: u64| #[trigger] s.translate(va) == None::<PageTableEntry> by {
                let e = s.root_entry(va);
                assert(e.0 == 0);
                lemma_zero_entry(V_BIT);
            }
            assert forall|w: u64| !(#[trigger] s.root_entry(w)).flag(V_BIT) by {
                assert(s.root_entry(w).0 == 0);
                lemma_zero_entry(V_BIT);
            }
            assert forall|a: u64| #[trigger] s.pages().contains(a) implies alloc.used().contains(a) by {
                assert(!has_table(s.l1_tables@, a));
                assert(!has_table(s.l0_tables@, a));
            }
        }
        Ok(s)
    }

    /// Adds a freshly created level-1 table.
    fn push_l1(&mut self, h: PageTableHandle, Ghost(alloc): Ghost<FrameAllocator>)
        requires
            old(self).wf(),
            h.wf(),
            alloc.used().contains(h.addr()),
            !old(self).pages().contains(h.addr()),
            forall|a: u64| old(self).pages().contains(a) ==> #[trigger] alloc.used().contains(a),
        ensures
            final(self).wf(),
            final(self).owned_by(&alloc),
            final(self).root == old(self).root,
            final(self).l0_tables == old(self).l0_tables,
            final(self).l1_tables@ == old(self).l1_tables@.push(h),
    {
        proof {
            lemma_push_fresh(self.l1_tables@, h);
        }
        self.l1_tables.push(h);
    }

    /// Adds a freshly created level-0 table.
    fn push_l0(&mut self, h: PageTableHandle, Ghost(alloc): Ghost<FrameAllocator>)
        requires
            old(self).wf(),
            h.wf(),
            alloc.used().contains(h.addr()),
            !old(self).pages().contains(h.addr()),
            forall|a: u64| old(self).pages().contains(a) ==> #[trigger] alloc.used().contains(a),
        ensures
            final(self).wf(),
            final(self).owned_by(&alloc),
            final(self).root == old(self).root,
            final(self).l1_tables == old(self).l1_tables,
            final(self).l0_tables@ == old(self).l0_tables@.push(h),
    {
        proof {
            lemma_push_fresh(self.l0_tables@, h);
        }
        self.l0_tables.push(h);
    }

    /// Maps the page of `va` to the frame of `pa` with `flags`, creating the
    /// missing intermediate tables.
    ///
    /// Fails with `PageTableMissing` exactly when a valid entry on the path
    /// refers to a table this space does not own, and with `OutOfMemory`
    /// only when a needed table frame cannot be allocated.  Only addresses
    /// whose walk ends in the leaf slot of `va` may translate differently
    /// afterwards; after a failure none does.
    pub fn map(
        &mut self,
        alloc: &mut FrameAllocator,
        va: VirtualAddr,
        pa: PhysicalAddr,
        flags: PageTableEntryFlags,
    ) -> (r: Result<(), MemError>)
        requires
            old(self).wf(),
            old(alloc).wf(),
            old(self).owned_by(old(alloc)),
        ensures
            final(self).wf(),
            final(alloc).wf(),
            final(self).owned_by(final(alloc)),
            final(self).root_addr() == old(self).root_addr(),
            old(alloc).used().subset_of(final(alloc).used()),
            forall|a: u64| #[trigger] final(self).pages().contains(a) ==> old(self).pages().contains(a)
                || !old(alloc).used().contains(a),
            forall|a: u64| #[trigger] final(alloc).used().contains(a) ==> old(alloc).used().contains(a)
                || final(self).pages().contains(a),
            r is Ok ==> (final(self).translate(va.0) matches Some(e) && maps_to(e, pa.0, flags)),
            (r == Err::<(), MemError>(MemError::PageTableMissing)) == old(self).blocked(va.0),
            r == Err::<(), MemError>(MemError::OutOfMemory) ==> !old(self).reaches_l0(va.0),
            r == Err::<(), MemError>(MemError::OutOfMemory) ==> old(alloc).page_count() < old(self).tables_needed(va.0),
            final(alloc).page_count() + old(self).tables_needed(va.0) >= old(alloc).page_count(),
            r is Ok || r == Err::<(), MemError>(MemError::PageTableMissing)
                || r == Err::<(), MemError>(MemError::OutOfMemory),
            forall|w: u64| !final(self).same_leaf(va.0, w) ==> #[trigger] final(self).translate(w) == old(self).translate(w),
            r is Err ==> forall|w: u64| #[trigger] final(self).translate(w) == old(self).translate(w),
            forall|w: u64| !old(self).blocked(w) ==> !#[trigger] final(self).blocked(w),
            old(self).tree_shaped() ==> final(self).tree_shaped(),
            forall|u: Set<u64>| #[trigger] old(self).tree_shaped_in(u) && u.subset_of(old(alloc).used())
                ==> final(self).tree_shaped_in(u),
    {
        let vpn2 = va.vpn2() as usize;
        let vpn1 = va.vpn1() as usize;
        let vpn0 = va.vpn0() as usize;
        let ghost s0 = *self;
        let ghost pc0 = alloc.page_count();
        let ghost mut created1 = false;
        let ghost mut new1: u64 = 0;

        // Root entry -> level-1 table (created when the entry is invalid).
        let pte2 = self.root.entry(vpn2);
        if !pte2.v() {
            let ghost a0 = *alloc;
            let new_pt = PageTableHandle::create(alloc)?;
            let e = link_entry(pte2, new_pt.as_phys_addr());
            self.root.set_entry(vpn2, e);
            proof {
                assert(!self.pages().contains(new_pt.addr())) by {
                    if self.pages().contains(new_pt.addr()) {
                        assert(s0.pages().contains(new_pt.addr()));
                    }
                }
                assert forall|a: u64| self.pages().contains(a) implies #[trigger] alloc.used().contains(a) by {
                    assert(s0.pages().contains(a));
                }
            }
            self.push_l1(new_pt, Ghost(*alloc));
            proof {
                lemma_table_of(self.l1_tables@, new_pt.addr(), self.l1_tables@.len() - 1);
                assert(!s0.pages().contains(new_pt.addr())) by {
                    if s0.pages().contains(new_pt.addr()) {
                        assert(a0.used().contains(new_pt.addr()));
                    }
                }
                Self::lemma_link_fresh_l1(s0, *self, va.0, e, new_pt);
                Self::lemma_link_fresh_l1_unblocked(s0, *self, va.0, e, new_pt);
                Self::lemma_link_fresh_l1_tree(s0, *self, va.0, e, new_pt);
                assert forall|u: Set<u64>| #[trigger] s0.tree_shaped_in(u) && u.subset_of(old(alloc).used())
                    implies self.tree_shaped_in(u) by {
                    assert(!u.contains(new_pt.addr()));
                }
                created1 = true;
                new1 = new_pt.addr();
                assert(alloc.page_count() + 1 == pc0);
                assert(self.l1_tables@[self.l1_tables@.len() - 1] == new_pt);
            }
        }
        let ghost s1 = *self;
        assert(self.owned_by(alloc));
        assert(forall|u: Set<u64>| #[trigger] s0.tree_shaped_in(u) && u.subset_of(old(alloc).used())
            ==> s1.tree_shaped_in(u));

        let pte2 = self.root.entry(vpn2);
        let pt1_addr = entry_target(pte2);
        let i1 = match find_table(&self.l1_tables, pt1_addr) {
            Some(i) => i,
            None => return Err(MemError::PageTableMissing),
        };
        proof {
            lemma_table_of(self.l1_tables@, pt1_addr, i1 as int);
            if created1 {
                let n = self.l1_tables@.len() - 1;
                assert(self.l1_tables@[n].addr() == new1);
                assert(pt1_addr == new1);
                if i1 != n {
                    assert(self.l1_tables@[i1 as int].addr() != self.l1_tables@[n].addr());
                }
                assert(self.l1_tables@[i1 as int].view_entries()[vpn1 as int].0 == 0);
                lemma_zero_entry(V_BIT);
            } else {
                assert(*self == s0);
                assert(s0.reaches_l1(va.0));
                assert(s0.l1_entry(va.0) == self.l1_tables@[i1 as int].view_entries()[vpn1 as int]);
            }
        }

        // Level-1 entry -> level-0 table (created when the entry is invalid).
        let pte1 = self.l1_tables[i1].entry(vpn1);
        if !pte1.v() {
            let ghost a1 = *alloc;
            let new_pt = PageTableHandle::create(alloc)?;
            let e = link_entry(pte1, new_pt.as_phys_addr());
            let ghost before = self.l1_tables@;
            let mut t = self.l1_tables.remove(i1);
            t.set_entry(vpn1, e);
            self.l1_tables.insert(i1, t);
            proof {
                assert(self.l1_tables@ =~= before.update(i1 as int, t));
                lemma_update_same_frame(before, i1 as int, t);
                lemma_table_of(self.l1_tables@, pt1_addr, i1 as int);
                assert(!self.pages().contains(new_pt.addr())) by {
                    if self.pages().contains(new_pt.addr()) {
                        assert(s1.pages().contains(new_pt.addr()));
                    }
                }
                assert forall|a: u64| self.pages().contains(a) implies #[trigger] alloc.used().contains(a) by {
                    assert(s1.pages().contains(a));
                }
            }
            self.push_l0(new_pt, Ghost(*alloc));
            proof {
                lemma_table_of(self.l0_tables@, new_pt.addr(), self.l0_tables@.len() - 1);
                assert(!s1.pages().contains(new_pt.addr())) by {
                    if s1.pages().contains(new_pt.addr()) {
                        assert(a1.used().contains(new_pt.addr()));
                    }
                }
                assert(s1.l1_entry(va.0) == pte1);
                Self::lemma_link_fresh_l0(s1, *self, va.0, i1 as int, e, new_pt);
                Self::lemma_link_fresh_l0_unblocked(s1, *self, va.0, i1 as int, e, new_pt);
                Self::lemma_link_fresh_l0_tree(s1, *self, va.0, i1 as int, e, new_pt);
            }
        }

        assert(self.owned_by(alloc));
        let ghost s2 = *self;
        let pte1 = self.l1_tables[i1].entry(vpn1);
        let pt0_addr = entry_target(pte1);
        let i0 = match find_table(&self.l0_tables, pt0_addr) {
            Some(i) => i,
            None => return Err(MemError::PageTableMissing),
        };

        // Leaf entry.
        let mut pte0 = self.l0_tables[i0].entry(vpn0);
        pte0.set_ppn(pa.ppn());
        pte0.set_v(true);
        pte0.set_bit(R_BIT, flags.r());
        pte0.set_bit(W_BIT, flags.w());
        pte0.set_bit(X_BIT, flags.x());
        pte0.set_bit(U_BIT, flags.u());
        pte0.set_bit(G_BIT, flags.g());
        pte0.set_bit(A_BIT, flags.a());
        pte0.set_bit(D_BIT, flags.d());
        let ghost before0 = self.l0_tables@;
        let mut t0 = self.l0_tables.remove(i0);
        t0.set_entry(vpn0, pte0);
        self.l0_tables.insert(i0, t0);
        proof {
            assert(self.l0_tables@ =~= before0.update(i0 as int, t0));
            lemma_update_same_frame(before0, i0 as int, t0);
            lemma_table_of(self.l0_tables@, pt0_addr, i0 as int);
            lemma_table_of(self.l1_tables@, pt1_addr, i1 as int);
            let p = spec_ppn(pa.0);
            assert(p & 0xfff_ffff_ffffu64 == p) by (bit_vector) requires p <= 0xfff_ffff_ffffu64;
            assert forall|a: u64| #[trigger] self.pages().contains(a) implies alloc.used().contains(a) by {
                assert(has_table(self.l0_tables@, a) == has_table(before0, a));
                assert(s2.pages().contains(a));
            }
            assert(s2.l1_entry(va.0) == pte1);
            lemma_table_of(s2.l0_tables@, pt0_addr, i0 as int);
            Self::lemma_set_leaf(s2, *self, va.0, i0 as int, pte0);
            assert forall|w: u64| !s2.blocked(w) implies !#[trigger] self.blocked(w) by {
                assert(self.root_entry(w) == s2.root_entry(w));
                assert(self.l1_entry(w) == s2.l1_entry(w));
                assert(has_table(self.l0_tables@, spec_target(s2.l1_entry(w)))
                    == has_table(before0, spec_target(s2.l1_entry(w))));
            }
            assert(forall|w: u64| !s0.blocked(w) ==> !#[trigger] s1.blocked(w));
            assert(forall|w: u64| !s1.blocked(w) ==> !#[trigger] s2.blocked(w));
            assert forall|w: u64| #![trigger self.reaches_l1(w)] #![trigger self.reaches_l0(w)] #![trigger self.blocked(w)]
                self.reaches_l1(w) == s2.reaches_l1(w) && self.reaches_l0(w) == s2.reaches_l0(w)
                && self.root_entry(w) == s2.root_entry(w) && self.l1_entry(w) == s2.l1_entry(w)
                && self.blocked(w) == s2.blocked(w) by {
                assert(self.root_entry(w) == s2.root_entry(w));
                assert(self.l1_entry(w) == s2.l1_entry(w));
                assert(has_table(self.l0_tables@, spec_target(s2.l1_entry(w)))
                    == has_table(before0, spec_target(s2.l1_entry(w))));
            }
            assert forall|u: Set<u64>| #[trigger] s2.tree_shaped_in(u) implies self.tree_shaped_in(u) by {
                assert forall|w: u64| #[trigger] self.blocked(w) implies !self.reaches_l1(w)
                    && u.contains(spec_target(self.root_entry(w))) by {
                    assert(s2.blocked(w));
                }
                assert forall|v: u64, w: u64| #[trigger] self.reaches_l1(v) && #[trigger] self.reaches_l1(w)
                    && spec_target(self.root_entry(v)) == spec_target(self.root_entry(w))
                    implies spec_vpn2(v) == spec_vpn2(w) by {
                    assert(s2.reaches_l1(v) && s2.reaches_l1(w));
                }
                assert forall|v: u64, w: u64| #[trigger] self.reaches_l0(v) && #[trigger] self.reaches_l0(w)
                    && spec_target(self.l1_entry(v)) == spec_target(self.l1_entry(w))
                    implies spec_vpn2(v) == spec_vpn2(w) && spec_vpn1(v) == spec_vpn1(w) by {
                    assert(s2.reaches_l0(v) && s2.reaches_l0(w));
                }
            }
            assert(forall|u: Set<u64>| #[trigger] s1.tree_shaped_in(u) ==> s2.tree_shaped_in(u));
            assert forall|u: Set<u64>| #[trigger] s0.tree_shaped_in(u) && u.subset_of(old(alloc).used())
                implies self.tree_shaped_in(u) by {
                assert(s1.tree_shaped_in(u));
                assert(s2.tree_shaped_in(u));
            }
        }
        Ok(())
    }

    /// Linking a fresh, empty level-1 table into the root entry of `va`,
    /// which was not valid, changes no translation.
    proof fn lemma_link_fresh_l1(s: AddressSpace, t: AddressSpace, va: u64, e: PageTableEntry, h: PageTableHandle)
        requires
            s.wf(),
            t.wf(),
            !s.root_entry(va).flag(V_BIT),
            t.root.view_entries() == s.root.view_entries().update(spec_vpn2(va) as int, e),
            spec_target(e) == h.addr(),
            t.l1_tables@ == s.l1_tables@.push(h),
            t.l0_tables@ == s.l0_tables@,
            !s.pages().contains(h.addr()),
            forall|i: int| 0 <= i < PTE_NUMBER ==> (#[trigger] h.view_entries()[i]).0 == 0,
        ensures
            forall|w: u64| #[trigger] t.translate(w) == s.translate(w),
    {
        let n = t.l1_tables@.len() - 1;
        assert(t.l1_tables@[n] == h);
        lemma_table_of(t.l1_tables@, h.addr(), n);
        lemma_zero_entry(V_BIT);
        assert(!has_table(s.l1_tables@, h.addr()));
        assert forall|w: u64| #[trigger] t.translate(w) == s.translate(w) by {
            let tw = spec_target(t.root_entry(w));
            if spec_vpn2(w) == spec_vpn2(va) {
                assert(t.root_entry(w) == e);
                assert(s.root_entry(w) == s.root_entry(va));
                assert(h.view_entries()[spec_vpn1(w) as int].0 == 0);
                assert(!t.l1_entry(w).flag(V_BIT));
            } else {
                assert(t.root_entry(w) == s.root_entry(w));
                if tw == h.addr() {
                    assert(h.view_entries()[spec_vpn1(w) as int].0 == 0);
                    assert(!t.l1_entry(w).flag(V_BIT));
                } else if has_table(s.l1_tables@, tw) {
                    let i = choose|i: int| 0 <= i < s.l1_tables@.len() && (#[trigger] s.l1_tables@[i]).addr() == tw;
                    lemma_table_of(s.l1_tables@, tw, i);
                    assert(t.l1_tables@[i] == s.l1_tables@[i]);
                    lemma_table_of(t.l1_tables@, tw, i);
                    assert(t.l1_entry(w) == s.l1_entry(w));
                } else {
                    assert(!has_table(t.l1_tables@, tw)) by {
                        if has_table(t.l1_tables@, tw) {
                            let i = choose|i: int| 0 <= i < t.l1_tables@.len() && (#[trigger] t.l1_tables@[i]).addr() == tw;
                            if i < s.l1_tables@.len() {
                                assert(s.l1_tables@[i] == t.l1_tables@[i]);
                            }
                        }
                    }
                }
            }
        }
    }

    /// Linking a fresh, empty level-1 table into the root entry of `va`
    /// blocks no walk that was not blocked before.
    proof fn lemma_link_fresh_l1_unblocked(s: AddressSpace, t: AddressSpace, va: u64, e: PageTableEntry, h: PageTableHandle)
        requires
            s.wf(),
            t.wf(),
            !s.root_entry(va).flag(V_BIT),
            e.flag(V_BIT),
            t.root.view_entries() == s.root.view_entries().update(spec_vpn2(va) as int, e),
            spec_target(e) == h.addr(),
            t.l1_tables@ == s.l1_tables@.push(h),
            t.l0_tables@ == s.l0_tables@,
            !s.pages().contains(h.addr()),
            forall|i: int| 0 <= i < PTE_NUMBER ==> (#[trigger] h.view_entries()[i]).0 == 0,
        ensures
            forall|w: u64| !s.blocked(w) ==> !#[trigger] t.blocked(w),
    {
        let n = t.l1_tables@.len() - 1;
        assert(t.l1_tables@[n] == h);
        lemma_table_of(t.l1_tables@, h.addr(), n);
        lemma_zero_entry(V_BIT);
        assert(!has_table(s.l1_tables@, h.addr()));
        assert forall|w: u64| !s.blocked(w) implies !#[trigger] t.blocked(w) by {
            let tw = spec_target(t.root_entry(w));
            if spec_vpn2(w) == spec_vpn2(va) {
                assert(t.root_entry(w) == e);
                assert(t.reaches_l1(w));
                assert(h.view_entries()[spec_vpn1(w) as int].0 == 0);
                assert(!t.l1_entry(w).flag(V_BIT));
            } else {
                assert(t.root_entry(w) == s.root_entry(w));
                if s.root_entry(w).flag(V_BIT) {
                    assert(s.reaches_l1(w));
                    let i = choose|i: int| 0 <= i < s.l1_tables@.len() && (#[trigger] s.l1_tables@[i]).addr() == tw;
                    lemma_table_of(s.l1_tables@, tw, i);
                    assert(t.l1_tables@[i] == s.l1_tables@[i]);
                    lemma_table_of(t.l1_tables@, tw, i);
                    assert(t.l1_entry(w) == s.l1_entry(w));
                    assert(t.reaches_l1(w));
                    let tw0 = spec_target(s.l1_entry(w));
                    assert(has_table(t.l0_tables@, tw0) == has_table(s.l0_tables@, tw0));
                }
            }
        }
    }

    /// Linking a fresh, empty level-1 table into the root entry of `va`
    /// keeps a tree-shaped space tree-shaped, when the table is not one of
    /// the foreign ones.
    proof fn lemma_link_fresh_l1_tree(s: AddressSpace, t: AddressSpace, va: u64, e: PageTableEntry, h: PageTableHandle)
        requires
            s.wf(),
            t.wf(),
            !s.root_entry(va).flag(V_BIT),
            e.flag(V_BIT),
            t.root.view_entries() == s.root.view_entries().update(spec_vpn2(va) as int, e),
            spec_target(e) == h.addr(),
            t.l1_tables@ == s.l1_tables@.push(h),
            t.l0_tables@ == s.l0_tables@,
            !s.pages().contains(h.addr()),
            forall|i: int| 0 <= i < PTE_NUMBER ==> (#[trigger] h.view_entries()[i]).0 == 0,
        ensures
            forall|u: Set<u64>| #[trigger] s.tree_shaped_in(u) && !u.contains(h.addr()) ==> t.tree_shaped_in(u),
    {
        let n = t.l1_tables@.len() - 1;
        assert(t.l1_tables@[n] == h);
        lemma_table_of(t.l1_tables@, h.addr(), n);
        lemma_zero_entry(V_BIT);
        assert(!has_table(s.l1_tables@, h.addr()));
        assert forall|w: u64| #![trigger t.reaches_l1(w)] #![trigger t.reaches_l0(w)] #![trigger t.blocked(w)]
            (spec_vpn2(w) == spec_vpn2(va) ==> t.reaches_l1(w) && spec_target(t.root_entry(w)) == h.addr()
                && !t.reaches_l0(w) && !t.blocked(w))
            && (spec_vpn2(w) != spec_vpn2(va) ==> t.root_entry(w) == s.root_entry(w)
                && (s.reaches_l1(w) ==> t.reaches_l1(w) && spec_target(s.root_entry(w)) != h.addr()
                    && t.l1_entry(w) == s.l1_entry(w) && t.reaches_l0(w) == s.reaches_l0(w))
                && (!s.reaches_l1(w) && spec_target(s.root_entry(w)) != h.addr() ==> !t.reaches_l1(w) && !t.reaches_l0(w)
                    && t.blocked(w) == s.blocked(w))) by {
            let tw = spec_target(t.root_entry(w));
            if spec_vpn2(w) == spec_vpn2(va) {
                assert(t.root_entry(w) == e);
                assert(h.view_entries()[spec_vpn1(w) as int].0 == 0);
                assert(!t.l1_entry(w).flag(V_BIT));
            } else {
                assert(t.root_entry(w) == s.root_entry(w));
                if s.reaches_l1(w) {
                    let i = choose|i: int| 0 <= i < s.l1_tables@.len() && (#[trigger] s.l1_tables@[i]).addr() == tw;
                    lemma_table_of(s.l1_tables@, tw, i);
                    assert(t.l1_tables@[i] == s.l1_tables@[i]);
                    lemma_table_of(t.l1_tables@, tw, i);
                    assert(t.l1_entry(w) == s.l1_entry(w));
                } else if tw != h.addr() && s.root_entry(w).flag(V_BIT) {
                    assert(!has_table(t.l1_tables@, tw)) by {
                        if has_table(t.l1_tables@, tw) {
                            let i = choose|i: int| 0 <= i < t.l1_tables@.len() && (#[trigger] t.l1_tables@[i]).addr() == tw;
                            if i < s.l1_tables@.len() {
                                assert(s.l1_tables@[i] == t.l1_tables@[i]);
                            }
                        }
                    }
                }
            }
        }
        assert forall|u: Set<u64>| #[trigger] s.tree_shaped_in(u) && !u.contains(h.addr()) implies t.tree_shaped_in(u) by {
            assert forall|w: u64| #[trigger] t.blocked(w) implies !t.reaches_l1(w)
                && u.contains(spec_target(t.root_entry(w))) by {
                if spec_vpn2(w) != spec_vpn2(va) {
                    if s.reaches_l1(w) {
                        assert(!s.blocked(w));
                    } else if s.root_entry(w).flag(V_BIT) {
                        assert(s.blocked(w));
                    }
                }
            }
            assert forall|v: u64, w: u64| #[trigger] t.reaches_l1(v) && #[trigger] t.reaches_l1(w)
                && spec_target(t.root_entry(v)) == spec_target(t.root_entry(w)) implies spec_vpn2(v) == spec_vpn2(w) by {
                if spec_vpn2(v) != spec_vpn2(va) && !s.reaches_l1(v) && s.root_entry(v).flag(V_BIT) {
                    assert(s.blocked(v));
                }
                if spec_vpn2(w) != spec_vpn2(va) && !s.reaches_l1(w) && s.root_entry(w).flag(V_BIT) {
                    assert(s.blocked(w));
                }
                if spec_vpn2(v) != spec_vpn2(va) && spec_vpn2(w) != spec_vpn2(va) {
                    assert(s.reaches_l1(v) && s.reaches_l1(w));
                }
            }
            assert forall|v: u64, w: u64| #[trigger] t.reaches_l0(v) && #[trigger] t.reaches_l0(w)
                && spec_target(t.l1_entry(v)) == spec_target(t.l1_entry(w))
                implies spec_vpn2(v) == spec_vpn2(w) && spec_vpn1(v) == spec_vpn1(w) by {
                if !s.reaches_l1(v) && s.root_entry(v).flag(V_BIT) {
                    assert(s.blocked(v));
                }
                if !s.reaches_l1(w) && s.root_entry(w).flag(V_BIT) {
                    assert(s.blocked(w));
                }
                assert(s.reaches_l0(v) && s.reaches_l0(w));
            }
        }
    }

    /// Linking a fresh, empty level-0 table into the level-1 entry of `va`
    /// keeps a tree-shaped space tree-shaped.
    proof fn lemma_link_fresh_l0_tree(s: AddressSpace, t: AddressSpace, va: u64, i1: int, e: PageTableEntry,
        h: PageTableHandle)
        requires
            s.wf(),
            t.wf(),
            0 <= i1 < s.l1_tables@.len(),
            s.root_entry(va).flag(V_BIT),
            s.l1_tables@[i1].addr() == spec_target(s.root_entry(va)),
            !s.l1_entry(va).flag(V_BIT),
            e.flag(V_BIT),
            t.root == s.root,
            t.l1_tables@ == s.l1_tables@.update(i1, t.l1_tables@[i1]),
            t.l1_tables@[i1].addr() == s.l1_tables@[i1].addr(),
            t.l1_tables@[i1].view_entries() == s.l1_tables@[i1].view_entries().update(spec_vpn1(va) as int, e),
            spec_target(e) == h.addr(),
            t.l0_tables@ == s.l0_tables@.push(h),
            !s.pages().contains(h.addr()),
        ensures
            forall|u: Set<u64>| #[trigger] s.tree_shaped_in(u) ==> t.tree_shaped_in(u),
    {
        let a1 = s.l1_tables@[i1].addr();
        let n = t.l0_tables@.len() - 1;
        assert(t.l0_tables@[n] == h);
        lemma_table_of(t.l0_tables@, h.addr(), n);
        lemma_table_of(s.l1_tables@, a1, i1);
        lemma_table_of(t.l1_tables@, a1, i1);
        lemma_update_same_frame(s.l1_tables@, i1, t.l1_tables@[i1]);
        assert(!has_table(s.l0_tables@, h.addr()));
        assert(s.reaches_l1(va));
        assert forall|w: u64| #![trigger t.reaches_l1(w)] #![trigger t.reaches_l0(w)] #![trigger t.blocked(w)]
            t.root_entry(w) == s.root_entry(w) && t.reaches_l1(w) == s.reaches_l1(w)
            && (s.reaches_l1(w) && spec_target(s.root_entry(w)) == a1 && spec_vpn1(w) == spec_vpn1(va)
                ==> t.reaches_l0(w) && spec_target(t.l1_entry(w)) == h.addr() && !t.blocked(w))
            && (!(s.reaches_l1(w) && spec_target(s.root_entry(w)) == a1 && spec_vpn1(w) == spec_vpn1(va))
                ==> (s.reaches_l1(w) ==> t.l1_entry(w) == s.l1_entry(w))
                    && (s.reaches_l0(w) ==> t.reaches_l0(w) && spec_target(s.l1_entry(w)) != h.addr())
                    && (t.reaches_l0(w) ==> s.reaches_l0(w) || s.blocked(w))
                    && (s.reaches_l1(w) && s.l1_entry(w).flag(V_BIT) && !s.reaches_l0(w) ==> s.blocked(w))
                    && (!s.reaches_l1(w) ==> t.blocked(w) == s.blocked(w))) by {
            assert(t.root_entry(w) == s.root_entry(w));
            let tw1 = spec_target(s.root_entry(w));
            assert(has_table(t.l1_tables@, tw1) == has_table(s.l1_tables@, tw1));
            if s.reaches_l1(w) {
                if tw1 == a1 && spec_vpn1(w) == spec_vpn1(va) {
                    assert(t.l1_entry(w) == e);
                } else {
                    if tw1 != a1 {
                        assert(table_of(t.l1_tables@, tw1) == table_of(s.l1_tables@, tw1));
                    }
                    assert(t.l1_entry(w) == s.l1_entry(w));
                    let tw0 = spec_target(s.l1_entry(w));
                    if s.reaches_l0(w) {
                        let i = choose|i: int| 0 <= i < s.l0_tables@.len() && (#[trigger] s.l0_tables@[i]).addr() == tw0;
                        assert(t.l0_tables@[i] == s.l0_tables@[i]);
                        assert(has_table(t.l0_tables@, tw0));
                    } else if s.l1_entry(w).flag(V_BIT) && tw0 != h.addr() {
                        assert(!has_table(t.l0_tables@, tw0)) by {
                            if has_table(t.l0_tables@, tw0) {
                                let i = choose|i: int| 0 <= i < t.l0_tables@.len() && (#[trigger] t.l0_tables@[i]).addr() == tw0;
                                if i < s.l0_tables@.len() {
                                    assert(s.l0_tables@[i] == t.l0_tables@[i]);
                                }
                            }
                        }
                    }
                }
            }
        }
        assert forall|u: Set<u64>| #[trigger] s.tree_shaped_in(u) implies t.tree_shaped_in(u) by {
            assert forall|w: u64| #[trigger] t.blocked(w) implies !t.reaches_l1(w)
                && u.contains(spec_target(t.root_entry(w))) by {
                if s.reaches_l1(w) && !(spec_target(s.root_entry(w)) == a1 && spec_vpn1(w) == spec_vpn1(va)) {
                    if s.l1_entry(w).flag(V_BIT) && !s.reaches_l0(w) {
                        assert(s.blocked(w));
                    }
                } else if !s.reaches_l1(w) {
                    assert(s.blocked(w));
                }
            }
            assert forall|v: u64, w: u64| #[trigger] t.reaches_l1(v) && #[trigger] t.reaches_l1(w)
                && spec_target(t.root_entry(v)) == spec_target(t.root_entry(w)) implies spec_vpn2(v) == spec_vpn2(w) by {
                assert(s.reaches_l1(v) && s.reaches_l1(w));
            }
            assert forall|v: u64, w: u64| #[trigger] t.reaches_l0(v) && #[trigger] t.reaches_l0(w)
                && spec_target(t.l1_entry(v)) == spec_target(t.l1_entry(w))
                implies spec_vpn2(v) == spec_vpn2(w) && spec_vpn1(v) == spec_vpn1(w) by {
                assert(s.reaches_l1(va) && s.reaches_l1(v) && s.reaches_l1(w));
                let nv = spec_target(s.root_entry(v)) == a1 && spec_vpn1(v) == spec_vpn1(va);
                let nw = spec_target(s.root_entry(w)) == a1 && spec_vpn1(w) == spec_vpn1(va);
                if !nv && !nw {
                    assert(s.reaches_l0(v) && s.reaches_l0(w));
                }
            }
        }
    }

    /// Linking a fresh, empty level-0 table into the level-1 entry of `va`
    /// blocks no walk that was not blocked before.
    proof fn lemma_link_fresh_l0_unblocked(s: AddressSpace, t: AddressSpace, va: u64, i1: int, e: PageTableEntry,
        h: PageTableHandle)
        requires
            s.wf(),
            t.wf(),
            0 <= i1 < s.l1_tables@.len(),
            s.root_entry(va).flag(V_BIT),
            s.l1_tables@[i1].addr() == spec_target(s.root_entry(va)),
            !s.l1_entry(va).flag(V_BIT),
            e.flag(V_BIT),
            t.root == s.root,
            t.l1_tables@ == s.l1_tables@.update(i1, t.l1_tables@[i1]),
            t.l1_tables@[i1].addr() == s.l1_tables@[i1].addr(),
            t.l1_tables@[i1].view_entries() == s.l1_tables@[i1].view_entries().update(spec_vpn1(va) as int, e),
            spec_target(e) == h.addr(),
            t.l0_tables@ == s.l0_tables@.push(h),
            !s.pages().contains(h.addr()),
        ensures
            forall|w: u64| !s.blocked(w) ==> !#[trigger] t.blocked(w),
    {
        let a1 = s.l1_tables@[i1].addr();
        let n = t.l0_tables@.len() - 1;
        assert(t.l0_tables@[n] == h);
        lemma_table_of(t.l0_tables@, h.addr(), n);
        lemma_table_of(s.l1_tables@, a1, i1);
        lemma_table_of(t.l1_tables@, a1, i1);
        lemma_update_same_frame(s.l1_tables@, i1, t.l1_tables@[i1]);
        assert forall|w: u64| !s.blocked(w) implies !#[trigger] t.blocked(w) by {
            assert(t.root_entry(w) == s.root_entry(w));
            let tw1 = spec_target(s.root_entry(w));
            assert(has_table(t.l1_tables@, tw1) == has_table(s.l1_tables@, tw1));
            if s.reaches_l1(w) {
                let same_slot = tw1 == a1 && spec_vpn1(w) == spec_vpn1(va);
                if same_slot {
                    assert(t.l1_entry(w) == e);
                    assert(t.reaches_l0(w));
                } else {
                    if tw1 != a1 {
                        assert(table_of(t.l1_tables@, tw1) == table_of(s.l1_tables@, tw1));
                    }
                    assert(t.l1_entry(w) == s.l1_entry(w));
                    let tw0 = spec_target(s.l1_entry(w));
                    if s.l1_entry(w).flag(V_BIT) {
                        assert(has_table(s.l0_tables@, tw0));
                        let i = choose|i: int| 0 <= i < s.l0_tables@.len() && (#[trigger] s.l0_tables@[i]).addr() == tw0;
                        assert(t.l0_tables@[i] == s.l0_tables@[i]);
                        assert(has_table(t.l0_tables@, tw0));
                    }
                }
            }
        }
    }

    /// Linking a fresh, empty level-0 table into the level-1 entry of
    /// `va`, which was not valid, changes no translation.
    proof fn lemma_link_fresh_l0(s: AddressSpace, t: AddressSpace, va: u64, i1: int, e: PageTableEntry,
        h: PageTableHandle)
        requires
            s.wf(),
            t.wf(),
            0 <= i1 < s.l1_tables@.len(),
            s.root_entry(va).flag(V_BIT),
            s.l1_tables@[i1].addr() == spec_target(s.root_entry(va)),
            !s.l1_entry(va).flag(V_BIT),
            t.root == s.root,
            t.l1_tables@ == s.l1_tables@.update(i1, t.l1_tables@[i1]),
            t.l1_tables@[i1].addr() == s.l1_tables@[i1].addr(),
            t.l1_tables@[i1].view_entries() == s.l1_tables@[i1].view_entries().update(spec_vpn1(va) as int, e),
            spec_target(e) == h.addr(),
            t.l0_tables@ == s.l0_tables@.push(h),
            !s.pages().contains(h.addr()),
            forall|i: int| 0 <= i < PTE_NUMBER ==> (#[trigger] h.view_entries()[i]).0 == 0,
        ensures
            forall|w: u64| #[trigger] t.translate(w) == s.translate(w),
    {
        let a1 = s.l1_tables@[i1].addr();
        let n = t.l0_tables@.len() - 1;
        assert(t.l0_tables@[n] == h);
        lemma_table_of(t.l0_tables@, h.addr(), n);
        lemma_table_of(s.l1_tables@, a1, i1);
        lemma_table_of(t.l1_tables@, a1, i1);
        lemma_update_same_frame(s.l1_tables@, i1, t.l1_tables@[i1]);
        lemma_zero_entry(V_BIT);
        assert(!has_table(s.l0_tables@, h.addr()));
        assert forall|w: u64| #[trigger] t.translate(w) == s.translate(w) by {
            assert(t.root_entry(w) == s.root_entry(w));
            let tw1 = spec_target(s.root_entry(w));
            assert(has_table(t.l1_tables@, tw1) == has_table(s.l1_tables@, tw1));
            if s.reaches_l1(w) {
                let same_slot = tw1 == a1 && spec_vpn1(w) == spec_vpn1(va);
                if same_slot {
                    assert(t.l1_entry(w) == e);
                    assert(s.l1_entry(w) == s.l1_entry(va));
                    assert(h.view_entries()[spec_vpn0(w) as int].0 == 0);
                    assert(!t.l0_entry(w).flag(V_BIT));
                } else {
                    if tw1 != a1 {
                        assert(table_of(t.l1_tables@, tw1) == table_of(s.l1_tables@, tw1));
                    }
                    assert(t.l1_entry(w) == s.l1_entry(w));
                    let tw0 = spec_target(s.l1_entry(w));
                    if tw0 == h.addr() {
                        assert(h.view_entries()[spec_vpn0(w) as int].0 == 0);
                        assert(!t.l0_entry(w).flag(V_BIT));
                    } else if has_table(s.l0_tables@, tw0) {
                        let i = choose|i: int| 0 <= i < s.l0_tables@.len() && (#[trigger] s.l0_tables@[i]).addr() == tw0;
                        lemma_table_of(s.l0_tables@, tw0, i);
                        assert(t.l0_tables@[i] == s.l0_tables@[i]);
                        lemma_table_of(t.l0_tables@, tw0, i);
                        assert(t.l0_entry(w) == s.l0_entry(w));
                    } else {
                        assert(!has_table(t.l0_tables@, tw0)) by {
                            if has_table(t.l0_tables@, tw0) {
                                let i = choose|i: int| 0 <= i < t.l0_tables@.len() && (#[trigger] t.l0_tables@[i]).addr() == tw0;
                                if i < s.l0_tables@.len() {
                                    assert(s.l0_tables@[i] == t.l0_tables@[i]);
                                }
                            }
                        }
                    }
                }
            }
        }
    }

    /// Setting the leaf entry of `va` changes only the translations of
    /// the addresses whose walk ends in that same leaf slot.
    proof fn lemma_set_leaf(s: AddressSpace, t: AddressSpace, va: u64, i0: int, e: PageTableEntry)
        requires
            s.wf(),
            t.wf(),
            s.reaches_l0(va),
            0 <= i0 < s.l0_tables@.len(),
            s.l0_tables@[i0].addr() == spec_target(s.l1_entry(va)),
            t.root == s.root,
            t.l1_tables@ == s.l1_tables@,
            t.l0_tables@ == s.l0_tables@.update(i0, t.l0_tables@[i0]),
            t.l0_tables@[i0].addr() == s.l0_tables@[i0].addr(),
            t.l0_tables@[i0].view_entries() == s.l0_tables@[i0].view_entries().update(spec_vpn0(va) as int, e),
        ensures
            forall|w: u64| !t.same_leaf(va, w) ==> #[trigger] t.translate(w) == s.translate(w),
    {
        let a0 = s.l0_tables@[i0].addr();
        lemma_table_of(s.l0_tables@, a0, i0);
        lemma_table_of(t.l0_tables@, a0, i0);
        lemma_update_same_frame(s.l0_tables@, i0, t.l0_tables@[i0]);
        assert forall|w: u64| !t.same_leaf(va, w) implies #[trigger] t.translate(w) == s.translate(w) by {
            assert(t.root_entry(w) == s.root_entry(w));
            assert(t.l1_entry(w) == s.l1_entry(w));
            assert(t.l1_entry(va) == s.l1_entry(va));
            let tw = spec_target(s.l1_entry(w));
            assert(has_table(t.l0_tables@, tw) == has_table(s.l0_tables@, tw));
            if s.reaches_l0(w) {
                if tw != a0 {
                    assert(table_of(t.l0_tables@, tw) == table_of(s.l0_tables@, tw));
                } else {
                    assert(spec_vpn0(w) != spec_vpn0(va));
                }
                assert(t.l0_entry(w) == s.l0_entry(w));
            }
        }
    }

    /// The walks of `va` and `w` end in the same leaf slot of the same
    /// level-0 table.
    pub closed spec fn same_leaf(&self, va: u64, w: u64) -> bool {
        &&& self.reaches_l0(va)
        &&& self.reaches_l0(w)
        &&& spec_target(self.l1_entry(va)) == spec_target(self.l1_entry(w))
        &&& spec_vpn0(va) == spec_vpn0(w)
    }

    /// Clears the leaf entry of `va` (no-op when the walk does not reach a
    /// level-0 table of this space); every address whose walk ends in
    /// another leaf slot translates as before.
    pub fn unmap(&mut self, va: VirtualAddr)
        requires
            old(self).wf(),
        ensures
            final(self).wf(),
            final(self).pages() == old(self).pages(),
            final(self).root_addr() == old(self).root_addr(),
            final(self).translate(va.0) == None::<PageTableEntry>,
            !old(self).reaches_l0(va.0) ==> *final(self) == *old(self),
            forall|w: u64| !old(self).same_leaf(va.0, w) ==> #[trigger] final(self).translate(w) == old(self).translate(w),
            forall|w: u64| #[trigger] final(self).blocked(w) == old(self).blocked(w),
            forall|w: u64| old(self).translate(w) == None::<PageTableEntry>
                ==> #[trigger] final(self).translate(w) == None::<PageTableEntry>,
    {
        let vpn2 = va.vpn2() as usize;
        let vpn1 = va.vpn1() as usize;
        let vpn0 = va.vpn0() as usize;

        let pte2 = self.root.entry(vpn2);
        if !pte2.v() {
            return;
        }
        let i1 = match find_table(&self.l1_tables, entry_target(pte2)) {
            Some(i) => i,
            None => return,
        };
        proof {
            lemma_table_of(self.l1_tables@, spec_target(pte2), i1 as int);
        }
        let pte1 = self.l1_tables[i1].entry(vpn1);
        if !pte1.v() {
            return;
        }
        let i0 = match find_table(&self.l0_tables, entry_target(pte1)) {
            Some(i) => i,
            None => return,
        };
        let ghost before0 = self.l0_tables@;
        let mut t0 = self.l0_tables.remove(i0);
        t0.set_entry(vpn0, PageTableEntry::new());
        self.l0_tables.insert(i0, t0);
        proof {
            assert(self.l0_tables@ =~= before0.update(i0 as int, t0));
            lemma_update_same_frame(before0, i0 as int, t0);
            lemma_table_of(self.l0_tables@, spec_target(pte1), i0 as int);
            lemma_zero_entry(V_BIT);
            assert(self.pages() =~= old(self).pages());
            let t = spec_target(pte1);
            assert forall|w: u64| old(self).translate(w) == None::<PageTableEntry>
                implies #[trigger] self.translate(w) == None::<PageTableEntry> by {
                assert(self.root_entry(w) == old(self).root_entry(w));
                assert(self.l1_entry(w) == old(self).l1_entry(w));
                let tw = spec_target(old(self).l1_entry(w));
                assert(has_table(self.l0_tables@, tw) == has_table(before0, tw));
                if old(self).reaches_l0(w) && tw != t {
                    assert(table_of(self.l0_tables@, tw) == table_of(before0, tw));
                }
            }
            assert forall|w: u64| #[trigger] self.blocked(w) == old(self).blocked(w) by {
                assert(self.root_entry(w) == old(self).root_entry(w));
                assert(self.l1_entry(w) == old(self).l1_entry(w));
                assert(has_table(self.l0_tables@, spec_target(old(self).l1_entry(w)))
                    == has_table(before0, spec_target(old(self).l1_entry(w))));
            }
            assert forall|w: u64| !old(self).same_leaf(va.0, w) implies #[trigger] self.translate(w) == old(self).translate(w) by {
                assert(self.root_entry(w) == old(self).root_entry(w));
                assert(self.l1_entry(w) == old(self).l1_entry(w));
                let tw = spec_target(old(self).l1_entry(w));
                assert(has_table(self.l0_tables@, tw) == has_table(before0, tw));
                if old(self).reaches_l0(w) {
                    if tw != t {
                        assert(table_of(self.l0_tables@, tw) == table_of(before0, tw));
                    } else {
                        assert(spec_vpn0(w) != spec_vpn0(va.0));
                        assert(table_of(self.l0_tables@, tw) == t0.view_entries());
                        lemma_table_of(before0, t, i0 as int);
                        assert(self.l0_entry(w) == old(self).l0_entry(w));
                    }
                }
            }
        }
    }
}

/// Index of the table at frame `a` in `s`.
pub open spec fn index_of(s: Seq<PageTableHandle>, a: u64) -> int {
    choose|i: int| 0 <= i < s.len() && (#[trigger] s[i]).addr() == a
}

/// `r` is `e` with its target redirected the way a deep copy redirects
/// references to copied tables: a target that is a level-1 (or level-0)
/// table of the source now names the copy at the same index; any other
/// entry is kept.  The flag bits are always kept.
pub open spec fn remapped(
    e: PageTableEntry,
    r: PageTableEntry,
    l1: Seq<PageTableHandle>,
    l0: Seq<PageTableHandle>,
    l1_new: Seq<u64>,
    l0_new: Seq<u64>,
) -> bool {
    let t = spec_target(e);
    &&& forall|j: u64| j < 10 ==> #[trigger] r.flag(j) == e.flag(j)
    &&& if has_table(l1, t) {
        spec_target(r) == l1_new[index_of(l1, t)]
    } else if has_table(l0, t) {
        spec_target(r) == l0_new[index_of(l0, t)]
    } else {
        r == e
    }
}

/// Every entry of `new` is the remapped counterpart of the entry of `old`
/// at the same index.
pub open spec fn table_remapped(
    old: Seq<PageTableEntry>,
    new: Seq<PageTableEntry>,
    l1: Seq<PageTableHandle>,
    l0: Seq<PageTableHandle>,
    l1_new: Seq<u64>,
    l0_new: Seq<u64>,
) -> bool {
    &&& old.len() == new.len()
    &&& forall|k: int| 0 <= k < old.len() ==> remapped(#[trigger] old[k], new[k], l1, l0, l1_new, l0_new)
}

/// Frames of a list of tables.
pub open spec fn frames_of(s: Seq<PageTableHandle>) -> Seq<u64> {
    s.map_values(|h: PageTableHandle| h.addr())
}

/// All frames in `s` are aligned, addressable, pairwise distinct, in use,
/// and were not in use in `before`.
pub open spec fn fresh_frames(s: Seq<u64>, before: Set<u64>, now: Set<u64>) -> bool {
    &&& forall|i: int| 0 <= i < s.len() ==> (#[trigger] s[i]) % FRAME_SIZE == 0
        && s[i] < crate::mem::frame::MAX_PHYS && now.contains(s[i]) && !before.contains(s[i])
    &&& forall|i: int, j: int| 0 <= i < j < s.len() ==> (#[trigger] s[i]) != (#[trigger] s[j])
}

impl AddressSpace {
    /// The entry `e` redirected to copied tables (see [`remapped`]).
    fn remap_entry(&self, e: PageTableEntry, l1_new: &Vec<u64>, l0_new: &Vec<u64>) -> (r: PageTableEntry)
        requires
            self.wf(),
            l1_new@.len() == self.l1_tables@.len(),
            l0_new@.len() == self.l0_tables@.len(),
            forall|i: int| 0 <= i < l1_new@.len() ==> (#[trigger] l1_new@[i]) % FRAME_SIZE == 0
                && l1_new@[i] < crate::mem::frame::MAX_PHYS,
            forall|i: int| 0 <= i < l0_new@.len() ==> (#[trigger] l0_new@[i]) % FRAME_SIZE == 0
                && l0_new@[i] < crate::mem::frame::MAX_PHYS,
        ensures
            remapped(e, r, self.l1_tables@, self.l0_tables@, l1_new@, l0_new@),
    {
        let t = entry_target(e);
        match find_table(&self.l1_tables, t) {
            Some(i) => {
                let mut r = e;
                let a = PhysicalAddr(l1_new[i]);
                r.set_ppn(a.ppn());
                proof {
                    lemma_table_of(self.l1_tables@, t, i as int);
                    let k = index_of(self.l1_tables@, t);
                    assert(k == i) by {
                        if k != i {
                            if k < i {
                                assert(self.l1_tables@[k].addr() != self.l1_tables@[i as int].addr());
                            } else {
                                assert(self.l1_tables@[i as int].addr() != self.l1_tables@[k].addr());
                            }
                        }
                    }
                    lemma_target_roundtrip(a.0);
                }
                r
            },
            None => match find_table(&self.l0_tables, t) {
                Some(j) => {
                    let mut r = e;
                    let a = PhysicalAddr(l0_new[j]);
                    r.set_ppn(a.ppn());
                    proof {
                        lemma_table_of(self.l0_tables@, t, j as int);
                        let k = index_of(self.l0_tables@, t);
                        assert(k == j) by {
                            if k != j {
                                if k < j {
                                    assert(self.l0_tables@[k].addr() != self.l0_tables@[j as int].addr());
                                } else {
                                    assert(self.l0_tables@[j as int].addr() != self.l0_tables@[k].addr());
                                }
                            }
                        }
                        lemma_target_roundtrip(a.0);
                    }
                    r
                },
                None => e,
            },
        }
    }

    /// Rewrites every entry of `h` (a copy of `src`) to its remapped form.
    fn remap_handle(
        &self,
        src: Ghost<Seq<PageTableEntry>>,
        h: &mut PageTableHandle,
        l1_new: &Vec<u64>,
        l0_new: &Vec<u64>,
    )
        requires
            self.wf(),
            old(h).wf(),
            old(h).view_entries() == src@,
            l1_new@.len() == self.l1_tables@.len(),
            l0_new@.len() == self.l0_tables@.len(),
            forall|i: int| 0 <= i < l1_new@.len() ==> (#[trigger] l1_new@[i]) % FRAME_SIZE == 0
                && l1_new@[i] < crate::mem::frame::MAX_PHYS,
            forall|i: int| 0 <= i < l0_new@.len() ==> (#[trigger] l0_new@[i]) % FRAME_SIZE == 0
                && l0_new@[i] < crate::mem::frame::MAX_PHYS,
        ensures
            final(h).wf(),
            final(h).addr() == old(h).addr(),
            table_remapped(src@, final(h).view_entries(), self.l1_tables@, self.l0_tables@, l1_new@, l0_new@),
    {
        let mut k: usize = 0;
        while k < PTE_NUMBER
            invariant
                self.wf(),
                k <= PTE_NUMBER,
                h.wf(),
                h.addr() == old(h).addr(),
                src@.len() == PTE_NUMBER,
                l1_new@.len() == self.l1_tables@.len(),
                l0_new@.len() == self.l0_tables@.len(),
                forall|i: int| 0 <= i < l1_new@.len() ==> (#[trigger] l1_new@[i]) % FRAME_SIZE == 0
                    && l1_new@[i] < crate::mem::frame::MAX_PHYS,
                forall|i: int| 0 <= i < l0_new@.len() ==> (#[trigger] l0_new@[i]) % FRAME_SIZE == 0
                    && l0_new@[i] < crate::mem::frame::MAX_PHYS,
                forall|q: int| 0 <= q < k ==> remapped(#[trigger] src@[q], h.view_entries()[q],
                    self.l1_tables@, self.l0_tables@, l1_new@, l0_new@),
                forall|q: int| k <= q < PTE_NUMBER ==> #[trigger] h.view_entries()[q] == src@[q],
            decreases PTE_NUMBER - k,
        {
            let e = h.entry(k);
            let r = self.remap_entry(e, l1_new, l0_new);
            h.set_entry(k, r);
            k = k + 1;
        }
    }

    /// Releases the frames of a list of tables back to `alloc`.
    fn release_all(tables: Vec<PageTableHandle>, alloc: &mut FrameAllocator, Ghost(before): Ghost<Set<u64>>)
        requires
            old(alloc).wf(),
            all_wf(tables@),
            fresh_frames(frames_of(tables@), before, old(alloc).used()),
        ensures
            final(alloc).wf(),
            forall|a: u64| #[trigger] final(alloc).used().contains(a) == (old(alloc).used().contains(a)
                && forall|k: int| 0 <= k < tables@.len() ==> tables@[k].addr() != a),
    {
        let ghost all = tables@;
        let mut tables = tables;
        while tables.len() > 0
            invariant
                alloc.wf(),
                all_wf(tables@),
                tables@.len() <= all.len(),
                tables@ =~= all.subrange(0, tables@.len() as int),
                fresh_frames(frames_of(tables@), before, alloc.used()),
                forall|a: u64| #[trigger] alloc.used().contains(a) == (old(alloc).used().contains(a)
                    && forall|k: int| tables@.len() <= k < all.len() ==> all[k].addr() != a),
            decreases tables@.len(),
        {
            let ghost n = tables@.len() - 1;
            let ghost t0 = tables@;
            let ghost u0 = alloc.used();
            let h = tables.pop().unwrap();
            proof {
                assert(h == all[n]);
                assert(frames_of(t0)[n] == h.addr());
                assert(frames_of(tables@) =~= frames_of(t0).subrange(0, n));
            }
            alloc.dealloc_frame(h.page);
            proof {
                assert forall|i: int| 0 <= i < frames_of(tables@).len() implies
                    (#[trigger] frames_of(tables@)[i]) % FRAME_SIZE == 0
                    && frames_of(tables@)[i] < crate::mem::frame::MAX_PHYS
                    && alloc.used().contains(frames_of(tables@)[i])
                    && !before.contains(frames_of(tables@)[i]) by {
                    assert(frames_of(tables@)[i] == frames_of(t0)[i]);
                    assert(frames_of(t0)[i] != frames_of(t0)[n]);
                }
                assert forall|a: u64| #[trigger] alloc.used().contains(a) == (old(alloc).used().contains(a)
                    && forall|k: int| tables@.len() <= k < all.len() ==> all[k].addr() != a) by {
                    if a == h.addr() {
                        assert(all[n].addr() == a);
                    }
                }
            }
        }
    }
}

/// Frames not in any table of `s`.
pub open spec fn not_in(s: Seq<PageTableHandle>, a: u64) -> bool {
    forall|k: int| 0 <= k < s.len() ==> s[k].addr() != a
}

impl AddressSpace {
    /// `c` is a deep copy of `self`: same number of tables per level, and
    /// every table of `c` holds the entries of the corresponding table of
    /// `self`, redirected to the copies (see [`remapped`]).
    pub closed spec fn is_copy_of(&self, c: &AddressSpace) -> bool {
        let l1n = frames_of(c.l1_tables@);
        let l0n = frames_of(c.l0_tables@);
        &&& c.l1_tables@.len() == self.l1_tables@.len()
        &&& c.l0_tables@.len() == self.l0_tables@.len()
        &&& table_remapped(self.root.view_entries(), c.root.view_entries(), self.l1_tables@,
            self.l0_tables@, l1n, l0n)
        &&& forall|i: int| 0 <= i < self.l1_tables@.len() ==> table_remapped(
            (#[trigger] self.l1_tables@[i]).view_entries(), c.l1_tables@[i].view_entries(),
            self.l1_tables@, self.l0_tables@, l1n, l0n)
        &&& forall|i: int| 0 <= i < self.l0_tables@.len() ==> table_remapped(
            (#[trigger] self.l0_tables@[i]).view_entries(), c.l0_tables@[i].view_entries(),
            self.l1_tables@, self.l0_tables@, l1n, l0n)
    }

    /// A copy translates an address as the source space does when the
    /// source's walk of it is not blocked and, when it reaches a leaf, the
    /// leaf's frame is not one of the source's tables.
    pub proof fn lemma_copy_translates(s: AddressSpace, c: AddressSpace, w: u64)
        requires
            s.wf(),
            c.wf(),
            s.is_copy_of(&c),
            !s.blocked(w),
            s.translate(w) matches Some(e) ==> !s.pages().contains(spec_target(e)),
        ensures
            c.translate(w) == s.translate(w),
    {
        let l1n = frames_of(c.l1_tables@);
        let l0n = frames_of(c.l0_tables@);
        let re = s.root_entry(w);
        let rc = c.root_entry(w);
        assert(remapped(re, rc, s.l1_tables@, s.l0_tables@, l1n, l0n));
        assert(rc.flag(V_BIT) == re.flag(V_BIT));
        if re.flag(V_BIT) {
            let t1 = spec_target(re);
            let i = choose|i: int| 0 <= i < s.l1_tables@.len() && (#[trigger] s.l1_tables@[i]).addr() == t1;
            lemma_table_of(s.l1_tables@, t1, i);
            let k = index_of(s.l1_tables@, t1);
            assert(s.l1_tables@[k].addr() == t1);
            assert(k == i) by {
                if k != i {
                    assert(s.l1_tables@[k].addr() != s.l1_tables@[i].addr());
                }
            }
            assert(spec_target(rc) == c.l1_tables@[i].addr());
            lemma_table_of(c.l1_tables@, c.l1_tables@[i].addr(), i);
            assert(c.reaches_l1(w));
            let e1 = s.l1_entry(w);
            let c1 = c.l1_entry(w);
            assert(e1 == s.l1_tables@[i].view_entries()[spec_vpn1(w) as int]);
            assert(c1 == c.l1_tables@[i].view_entries()[spec_vpn1(w) as int]);
            assert(remapped(e1, c1, s.l1_tables@, s.l0_tables@, l1n, l0n));
            assert(c1.flag(V_BIT) == e1.flag(V_BIT));
            if e1.flag(V_BIT) {
                let t0 = spec_target(e1);
                let j = choose|j: int| 0 <= j < s.l0_tables@.len() && (#[trigger] s.l0_tables@[j]).addr() == t0;
                lemma_table_of(s.l0_tables@, t0, j);
                assert(!has_table(s.l1_tables@, t0));
                let k0 = index_of(s.l0_tables@, t0);
                assert(s.l0_tables@[k0].addr() == t0);
                assert(k0 == j) by {
                    if k0 != j {
                        assert(s.l0_tables@[k0].addr() != s.l0_tables@[j].addr());
                    }
                }
                assert(spec_target(c1) == c.l0_tables@[j].addr());
                lemma_table_of(c.l0_tables@, c.l0_tables@[j].addr(), j);
                assert(!has_table(c.l1_tables@, c.l0_tables@[j].addr()));
                assert(c.reaches_l0(w));
                let e0 = s.l0_entry(w);
                let c0 = c.l0_entry(w);
                assert(e0 == s.l0_tables@[j].view_entries()[spec_vpn0(w) as int]);
                assert(c0 == c.l0_tables@[j].view_entries()[spec_vpn0(w) as int]);
                assert(remapped(e0, c0, s.l1_tables@, s.l0_tables@, l1n, l0n));
                if e0.flag(V_BIT) {
                    assert(s.translate(w) == Some(e0));
                    assert(!has_table(s.l1_tables@, spec_target(e0)));
                    assert(!has_table(s.l0_tables@, spec_target(e0)));
                    assert(c0 == e0);
                }
            }
        }
    }

    /// Copies every table of `src` into fresh frames.
    fn copy_tables(src: &Vec<PageTableHandle>, alloc: &mut FrameAllocator, Ghost(before): Ghost<Set<u64>>)
        -> (r: Result<Vec<PageTableHandle>, MemError>)
        requires
            old(alloc).wf(),
            all_wf(src@),
            before.subset_of(old(alloc).used()),
        ensures
            final(alloc).wf(),
            old(alloc).used().subset_of(final(alloc).used()),
            match r {
                Ok(v) => {
                    &&& v@.len() == src@.len()
                    &&& all_wf(v@)
                    &&& fresh_frames(frames_of(v@), old(alloc).used(), final(alloc).used())
                    &&& forall|i: int| 0 <= i < v@.len() ==> (#[trigger] v@[i]).view_entries() == src@[i].view_entries()
                    &&& forall|a: u64| #[trigger] final(alloc).used().contains(a) == (old(alloc).used().contains(a)
                        || !not_in(v@, a))
                },
                Err(e) => e == MemError::OutOfMemory && final(alloc).used() == old(alloc).used(),
            },
    {
        let mut out: Vec<PageTableHandle> = Vec::new();
        let mut i: usize = 0;
        while i < src.len()
            invariant
                alloc.wf(),
                all_wf(src@),
                i <= src@.len(),
                out@.len() == i,
                all_wf(out@),
                old(alloc).used().subset_of(alloc.used()),
                fresh_frames(frames_of(out@), old(alloc).used(), alloc.used()),
                forall|k: int| 0 <= k < i ==> (#[trigger] out@[k]).view_entries() == src@[k].view_entries(),
                forall|a: u64| #[trigger] alloc.used().contains(a) == (old(alloc).used().contains(a)
                    || !not_in(out@, a)),
            decreases src@.len() - i,
        {
            match PageTableHandle::create(alloc) {
                Ok(mut h) => {
                    src[i].copy_from(&mut h);
                    let ghost o = out@;
                    out.push(h);
                    proof {
                        assert(frames_of(out@) =~= frames_of(o).push(h.addr()));
                        assert forall|a: u64| #[trigger] alloc.used().contains(a) == (old(alloc).used().contains(a)
                            || !not_in(out@, a)) by {
                            if !not_in(o, a) {
                                let k = choose|k: int| 0 <= k < o.len() && !(o[k].addr() != a);
                                assert(out@[k] == o[k]);
                            }
                            if a == h.addr() {
                                assert(out@[o.len() as int] == h);
                            }
                            if !not_in(out@, a) {
                                let k = choose|k: int| 0 <= k < out@.len() && !(out@[k].addr() != a);
                                if k < o.len() {
                                    assert(out@[k] == o[k]);
                                }
                            }
                        }
                        assert forall|k: int| 0 <= k < out@.len() implies (#[trigger] out@[k]).wf() by {
                            if k < o.len() { assert(out@[k] == o[k]); }
                        }
                        assert forall|k: int| 0 <= k < o.len() implies frames_of(o)[k] != h.addr() by {
                            assert(o[k].addr() == frames_of(o)[k]);
                        }
                    }
                },
                Err(e) => {
                    let ghost u = alloc.used();
                    Self::release_all(out, alloc, Ghost(old(alloc).used()));
                    proof {
                        assert(alloc.used() =~= old(alloc).used()) by {
                            assert forall|a: u64| alloc.used().contains(a) == old(alloc).used().contains(a) by {
                                if old(alloc).used().contains(a) {
                                    assert(not_in(out@, a)) by {
                                        assert forall|k: int| 0 <= k < out@.len() implies out@[k].addr() != a by {
                                            assert(frames_of(out@)[k] == out@[k].addr());
                                        }
                                    }
                                }
                            }
                        }
                    }
                    return Err(e);
                },
            }
            i = i + 1;
        }
        Ok(out)
    }
}

impl AddressSpace {
    /// Rewrites every table of `v` (copies of `src`) to its remapped form.
    fn remap_all(
        &self,
        src: Ghost<Seq<PageTableHandle>>,
        v: &mut Vec<PageTableHandle>,
        l1_new: &Vec<u64>,
        l0_new: &Vec<u64>,
    )
        requires
            self.wf(),
            all_wf(old(v)@),
            old(v)@.len() == src@.len(),
            forall|i: int| 0 <= i < src@.len() ==> (#[trigger] old(v)@[i]).view_entries() == src@[i].view_entries(),
            all_wf(src@),
            l1_new@.len() == self.l1_tables@.len(),
            l0_new@.len() == self.l0_tables@.len(),
            forall|i: int| 0 <= i < l1_new@.len() ==> (#[trigger] l1_new@[i]) % FRAME_SIZE == 0
                && l1_new@[i] < crate::mem::frame::MAX_PHYS,
            forall|i: int| 0 <= i < l0_new@.len() ==> (#[trigger] l0_new@[i]) % FRAME_SIZE == 0
                && l0_new@[i] < crate::mem::frame::MAX_PHYS,
        ensures
            all_wf(final(v)@),
            frames_of(final(v)@) == frames_of(old(v)@),
            forall|i: int| 0 <= i < src@.len() ==> table_remapped((#[trigger] src@[i]).view_entries(),
                final(v)@[i].view_entries(), self.l1_tables@, self.l0_tables@, l1_new@, l0_new@),
    {
        let mut i: usize = 0;
        while i < v.len()
            invariant
                self.wf(),
                i <= v@.len(),
                v@.len() == src@.len(),
                all_wf(v@),
                all_wf(src@),
                frames_of(v@) == frames_of(old(v)@),
                forall|k: int| i <= k < src@.len() ==> (#[trigger] v@[k]).view_entries() == src@[k].view_entries(),
                forall|k: int| 0 <= k < i ==> table_remapped((#[trigger] src@[k]).view_entries(),
                    v@[k].view_entries(), self.l1_tables@, self.l0_tables@, l1_new@, l0_new@),
                l1_new@.len() == self.l1_tables@.len(),
                l0_new@.len() == self.l0_tables@.len(),
                forall|q: int| 0 <= q < l1_new@.len() ==> (#[trigger] l1_new@[q]) % FRAME_SIZE == 0
                    && l1_new@[q] < crate::mem::frame::MAX_PHYS,
                forall|q: int| 0 <= q < l0_new@.len() ==> (#[trigger] l0_new@[q]) % FRAME_SIZE == 0
                    && l0_new@[q] < crate::mem::frame::MAX_PHYS,
            decreases v@.len() - i,
        {
            let ghost before = v@;
            let mut h = v.remove(i);
            proof {
                assert(h == before[i as int]);
            }
            self.remap_handle(Ghost(src@[i as int].view_entries()), &mut h, l1_new, l0_new);
            v.insert(i, h);
            proof {
                assert(v@ =~= before.update(i as int, h));
                assert(frames_of(v@) =~= frames_of(before));
                assert forall|k: int| 0 <= k < v@.len() implies (#[trigger] v@[k]).wf() by {
                    if k != i { assert(v@[k] == before[k]); }
                }
            }
            i = i + 1;
        }
    }

    /// Deep-copies the address space: every table is copied into a fresh
    /// frame and references between copied tables are redirected to the
    /// copies; leaf targets that are not tables of this space stay shared.
    ///
    /// On `OutOfMemory` every frame taken so far is returned.
    pub fn try_clone(&self, alloc: &mut FrameAllocator) -> (r: Result<AddressSpace, MemError>)
        requires
            self.wf(),
            old(alloc).wf(),
            self.owned_by(old(alloc)),
        ensures
            final(alloc).wf(),
            self.owned_by(final(alloc)),
            match r {
                Ok(c) => {
                    &&& c.wf()
                    &&& c.owned_by(final(alloc))
                    &&& old(alloc).used().subset_of(final(alloc).used())
                    &&& forall|a: u64| #[trigger] c.pages().contains(a) ==> !old(alloc).used().contains(a)
                    &&& self.is_copy_of(&c)
                },
                Err(e) => e == MemError::OutOfMemory && final(alloc).used() == old(alloc).used(),
            },
    {
        let ghost u0 = alloc.used();
        let mut root = PageTableHandle::create(alloc)?;
        self.root.copy_from(&mut root);
        let ghost u1 = alloc.used();
        let mut l1n = match Self::copy_tables(&self.l1_tables, alloc, Ghost(u0)) {
            Ok(v) => v,
            Err(e) => {
                alloc.dealloc_frame(root.page);
                proof { assert(alloc.used() =~= u0); }
                return Err(e);
            },
        };
        let ghost u2 = alloc.used();
        let mut l0n = match Self::copy_tables(&self.l0_tables, alloc, Ghost(u1)) {
            Ok(v) => v,
            Err(e) => {
                let ghost v1 = l1n@;
                proof {
                    assert forall|k: int| 0 <= k < v1.len() implies v1[k].addr() != root.addr() by {
                        assert(frames_of(v1)[k] == v1[k].addr());
                    }
                }
                Self::release_all(l1n, alloc, Ghost(u1));
                proof {
                    assert(alloc.used().contains(root.addr()));
                }
                alloc.dealloc_frame(root.page);
                proof {
                    assert(alloc.used() =~= u0) by {
                        assert forall|a: u64| alloc.used().contains(a) == u0.contains(a) by {
                            if u0.contains(a) {
                                assert(forall|k: int| 0 <= k < l1n@.len() ==> l1n@[k].addr() != a) by {
                                    assert forall|k: int| 0 <= k < l1n@.len() implies l1n@[k].addr() != a by {
                                        assert(frames_of(l1n@)[k] == l1n@[k].addr());
                                    }
                                }
                            }
                        }
                    }
                }
                return Err(e);
            },
        };
        let ghost u3 = alloc.used();

        // Frames of the copies, used to redirect references.
        let mut l1a: Vec<u64> = Vec::new();
        let mut k: usize = 0;
        while k < l1n.len()
            invariant
                k <= l1n@.len(),
                l1a@ == frames_of(l1n@).subrange(0, k as int),
            decreases l1n@.len() - k,
        {
            l1a.push(l1n[k].page.start);
            k = k + 1;
            proof { assert(l1a@ =~= frames_of(l1n@).subrange(0, k as int)); }
        }
        let mut l0a: Vec<u64> = Vec::new();
        let mut k: usize = 0;
        while k < l0n.len()
            invariant
                k <= l0n@.len(),
                l0a@ == frames_of(l0n@).subrange(0, k as int),
            decreases l0n@.len() - k,
        {
            l0a.push(l0n[k].page.start);
            k = k + 1;
            proof { assert(l0a@ =~= frames_of(l0n@).subrange(0, k as int)); }
        }
        proof {
            assert(l1a@ =~= frames_of(l1n@));
            assert(l0a@ =~= frames_of(l0n@));
            assert forall|q: int| 0 <= q < l1a@.len() implies (#[trigger] l1a@[q]) % FRAME_SIZE == 0
                && l1a@[q] < crate::mem::frame::MAX_PHYS by {
                assert(frames_of(l1n@)[q] == l1a@[q]);
            }
            assert forall|q: int| 0 <= q < l0a@.len() implies (#[trigger] l0a@[q]) % FRAME_SIZE == 0
                && l0a@[q] < crate::mem::frame::MAX_PHYS by {
                assert(frames_of(l0n@)[q] == l0a@[q]);
            }
        }

        self.remap_handle(Ghost(self.root.view_entries()), &mut root, &l1a, &l0a);
        let ghost f1 = frames_of(l1n@);
        let ghost f0 = frames_of(l0n@);
        self.remap_all(Ghost(self.l1_tables@), &mut l1n, &l1a, &l0a);
        self.remap_all(Ghost(self.l0_tables@), &mut l0n, &l1a, &l0a);

        let c = AddressSpace { root, l1_tables: l1n, l0_tables: l0n };
        proof {
            assert(frames_of(c.l1_tables@) == f1);
            assert(frames_of(c.l0_tables@) == f0);
            // Frame facts of the copies.
            assert forall|a: u64| #[trigger] has_table(c.l1_tables@, a) implies
                u2.contains(a) && !u0.contains(a) && a != c.root.addr() by {
                let q = choose|q: int| 0 <= q < c.l1_tables@.len() && (#[trigger] c.l1_tables@[q]).addr() == a;
                assert(f1[q] == a);
            }
            assert forall|a: u64| #[trigger] has_table(c.l0_tables@, a) implies
                !u2.contains(a) && !u0.contains(a) by {
                let q = choose|q: int| 0 <= q < c.l0_tables@.len() && (#[trigger] c.l0_tables@[q]).addr() == a;
                assert(f0[q] == a);
            }
            assert(distinct_pages(c.l1_tables@)) by {
                assert forall|i: int, j: int| 0 <= i < j < c.l1_tables@.len() implies
                    (#[trigger] c.l1_tables@[i]).addr() != (#[trigger] c.l1_tables@[j]).addr() by {
                    assert(f1[i] != f1[j]);
                }
            }
            assert(distinct_pages(c.l0_tables@)) by {
                assert forall|i: int, j: int| 0 <= i < j < c.l0_tables@.len() implies
                    (#[trigger] c.l0_tables@[i]).addr() != (#[trigger] c.l0_tables@[j]).addr() by {
                    assert(f0[i] != f0[j]);
                }
            }
            assert(c.wf());
            assert forall|a: u64| #[trigger] c.pages().contains(a) implies alloc.used().contains(a)
                && !u0.contains(a) by {
                if has_table(c.l0_tables@, a) {
                    let q = choose|q: int| 0 <= q < c.l0_tables@.len() && (#[trigger] c.l0_tables@[q]).addr() == a;
                    assert(f0[q] == a);
                }
            }
            assert forall|a: u64| #[trigger] self.pages().contains(a) implies alloc.used().contains(a) by {
                assert(u0.contains(a));
            }
            assert(self.is_copy_of(&c));
        }
        Ok(c)
    }
}

/// Which address space an operation targets.
#[derive(Clone, Copy, Debug, PartialEq, Eq, Structural)]
pub enum AddressSpaceId {
    /// The kernel address space.
    Kernel,
    /// The user address space of a task.
    User(Tid),
}

impl AddressSpaceId {
    /// The task whose user space `self` selects, if any.
    pub open spec fn user(self) -> Option<Tid> {
        match self {
            AddressSpaceId::Kernel => None,
            AddressSpaceId::User(t) => Some(t),
        }
    }
}

/// Sv39 paging mode value of the `satp` mode field.
pub const SATP_MODE_SV39: u64 = 8;

/// The `satp` value selecting Sv39 paging with the root table in frame
/// `root` (mode in bits 60..64, root page number in bits 0..44).
pub open spec fn spec_satp(root: u64) -> u64 {
    (SATP_MODE_SV39 as int * 0x1000_0000_0000_0000 + spec_ppn(root) as int) as u64
}

/// The kernel address space plus one user address space per task.
pub struct PageTableManager {
    kernel: AddressSpace,
    user: Vec<(Tid, AddressSpace)>,
}

/// Index of the user space of `tid` in `s` (when there is one).
pub open spec fn user_index(s: Seq<(Tid, AddressSpace)>, tid: Tid) -> int {
    choose|i: int| 0 <= i < s.len() && (#[trigger] s[i]).0 == tid
}

/// Some user space in `s` belongs to `tid`.
pub open spec fn has_user(s: Seq<(Tid, AddressSpace)>, tid: Tid) -> bool {
    exists|i: int| 0 <= i < s.len() && (#[trigger] s[i]).0 == tid
}

impl PageTableManager {
    /// The kernel address space.
    pub closed spec fn kernel_space(&self) -> AddressSpace {
        self.kernel
    }

    /// Whether `tid` has a user address space.
    pub closed spec fn has_space(&self, tid: Tid) -> bool {
        has_user(self.user@, tid)
    }

    /// The user address space of `tid` (meaningful when it has one).
    pub closed spec fn user_space(&self, tid: Tid) -> AddressSpace {
        self.user@[user_index(self.user@, tid)].1
    }

    /// Some table of some address space lives in the frame at `a`.
    pub closed spec fn holds_page(&self, a: u64) -> bool {
        self.kernel.pages().contains(a)
            || exists|i: int| 0 <= i < self.user@.len() && (#[trigger] self.user@[i]).1.pages().contains(a)
    }

    /// Every frame holding a table is in use.
    pub proof fn lemma_holds_used(&self, alloc: &FrameAllocator, a: u64)
        requires
            self.wf(alloc),
            self.holds_page(a),
        ensures
            alloc.used().contains(a),
    {
        if !self.kernel.pages().contains(a) {
            let i = choose|i: int| 0 <= i < self.user@.len() && (#[trigger] self.user@[i]).1.pages().contains(a);
            assert(self.user@[i].1.owned_by(alloc));
        }
    }

    /// The manager stays well formed under another allocator state in which
    /// every frame holding a table is still in use.
    pub proof fn lemma_wf_keep(&self, f0: &FrameAllocator, f1: &FrameAllocator)
        requires
            self.wf(f0),
            forall|a: u64| #[trigger] self.holds_page(a) ==> f1.used().contains(a),
        ensures
            self.wf(f1),
    {
        assert forall|a: u64| #[trigger] self.kernel.pages().contains(a) implies f1.used().contains(a) by {
            assert(self.holds_page(a));
        }
        assert forall|i: int| 0 <= i < self.user@.len() implies (#[trigger] self.user@[i]).1.wf()
            && self.user@[i].1.owned_by(f1) by {
            assert forall|a: u64| #[trigger] self.user@[i].1.pages().contains(a) implies f1.used().contains(a) by {
                assert(self.holds_page(a));
            }
        }
    }

    /// The address space selected by `id` (meaningful when it exists).
    pub open spec fn space(&self, id: AddressSpaceId) -> AddressSpace {
        match id {
            AddressSpaceId::Kernel => self.kernel_space(),
            AddressSpaceId::User(t) => self.user_space(t),
        }
    }

    /// Whether the address space selected by `id` exists.
    pub open spec fn has_id(&self, id: AddressSpaceId) -> bool {
        match id {
            AddressSpaceId::Kernel => true,
            AddressSpaceId::User(t) => self.has_space(t),
        }
    }

    /// All spaces are well formed and own their frames in `alloc`; task
    /// ids are unique.
    pub closed spec fn wf(&self, alloc: &FrameAllocator) -> bool {
        &&& self.kernel.wf()
        &&& self.kernel.owned_by(alloc)
        &&& forall|i: int| 0 <= i < self.user@.len() ==> (#[trigger] self.user@[i]).1.wf()
            && self.user@[i].1.owned_by(alloc)
        &&& forall|i: int, j: int| 0 <= i < j < self.user@.len() ==> (#[trigger] self.user@[i]).0
            != (#[trigger] self.user@[j]).0
        &&& forall|i: int, a: u64| 0 <= i < self.user@.len() && #[trigger] self.user@[i].1.pages().contains(a)
            ==> !self.kernel.pages().contains(a)
        &&& forall|i: int, j: int, a: u64| 0 <= i < self.user@.len() && 0 <= j < self.user@.len() && i != j
            && #[trigger] self.user@[i].1.pages().contains(a) ==> !(#[trigger] self.user@[j]).1.pages().contains(a)
    }

    /// Task ids of user spaces are unique.
    pub closed spec fn ids_unique(&self) -> bool {
        forall|i: int, j: int| 0 <= i < j < self.user@.len() ==> (#[trigger] self.user@[i]).0
            != (#[trigger] self.user@[j]).0
    }

    /// A well-formed manager has unique task ids.
    pub proof fn lemma_wf_ids(&self, alloc: &FrameAllocator)
        requires
            self.wf(alloc),
        ensures
            self.ids_unique(),
    {
    }

    /// A manager with an empty kernel address space and no user spaces
    /// (`OutOfMemory` when no frame is left for the kernel root table).
    pub fn new(alloc: &mut FrameAllocator) -> (r: Result<Self, MemError>)
        requires
            old(alloc).wf(),
        ensures
            final(alloc).wf(),
            old(alloc).used().subset_of(final(alloc).used()),
            match r {
                Ok(m) => m.wf(final(alloc)) && (forall|t: Tid| !m.has_space(t))
                    && (forall|va: u64| #[trigger] m.kernel_space().translate(va) == None::<PageTableEntry>)
                    && m.kernel_space().tree_shaped(),
                Err(e) => e == MemError::OutOfMemory,
            },
    {
        let kernel = AddressSpace::create(alloc)?;
        Ok(PageTableManager { kernel, user: Vec::new() })
    }

    /// Finds the slot of `tid`.
    fn find_user(&self, tid: Tid) -> (r: Option<usize>)
        ensures
            match r {
                Some(i) => i < self.user@.len() && self.user@[i as int].0 == tid,
                None => !has_user(self.user@, tid),
            },
    {
        let mut i: usize = 0;
        while i < self.user.len()
            invariant
                i <= self.user@.len(),
                forall|k: int| 0 <= k < i ==> (#[trigger] self.user@[k]).0 != tid,
            decreases self.user@.len() - i,
        {
            if self.user[i].0.0 == tid.0 {
                return Some(i);
            }
            i = i + 1;
        }
        None
    }

    proof fn lemma_user_index(&self, tid: Tid, i: int)
        requires
            forall|p: int, q: int| 0 <= p < q < self.user@.len() ==> (#[trigger] self.user@[p]).0
                != (#[trigger] self.user@[q]).0,
            0 <= i < self.user@.len(),
            self.user@[i].0 == tid,
        ensures
            self.has_space(tid),
            user_index(self.user@, tid) == i,
            self.user_space(tid) == self.user@[i].1,
    {
        let k = user_index(self.user@, tid);
        assert(0 <= k < self.user@.len() && self.user@[k].0 == tid);
        if k != i {
            if k < i {
                assert(self.user@[k].0 != self.user@[i].0);
            } else {
                assert(self.user@[i].0 != self.user@[k].0);
            }
        }
    }

    /// Physical address of the kernel root table.
    pub fn kernel_root_addr(&self) -> (r: PhysicalAddr)
        ensures
            r.0 == self.kernel_space().root_addr(),
    {
        self.kernel.root.as_phys_addr()
    }

    /// Physical address of the root table of `tid`'s address space.
    pub fn user_root_addr(&self, tid: Tid) -> (r: Result<PhysicalAddr, MemError>)
        requires
            self.ids_unique(),
        ensures
            match r {
                Ok(a) => self.has_space(tid) && a.0 == self.user_space(tid).root_addr(),
                Err(e) => !self.has_space(tid) && e == MemError::AddressSpaceNotFound,
            },
    {
        match self.find_user(tid) {
            Some(i) => {
                proof { self.lemma_user_index(tid, i as int); }
                Ok(self.user[i].1.root.as_phys_addr())
            },
            None => Err(MemError::AddressSpaceNotFound),
        }
    }
}

impl AddressSpace {
    /// A space owns its frames in `alloc` when all of them are in use.
    pub proof fn lemma_owned_by(&self, alloc: &FrameAllocator)
        requires
            forall|a: u64| #[trigger] self.pages().contains(a) ==> alloc.used().contains(a),
        ensures
            self.owned_by(alloc),
    {
    }

    /// Returns every frame of this space to `alloc`.
    pub fn release(self, alloc: &mut FrameAllocator)
        requires
            self.wf(),
            old(alloc).wf(),
            self.owned_by(old(alloc)),
        ensures
            final(alloc).wf(),
            forall|a: u64| #[trigger] final(alloc).used().contains(a)
                == (old(alloc).used().contains(a) && !self.pages().contains(a)),
    {
        let ghost s = self;
        let AddressSpace { root, l1_tables, l0_tables } = self;
        let ghost u0 = alloc.used();
        proof {
            assert forall|i: int| 0 <= i < frames_of(l1_tables@).len() implies
                (#[trigger] frames_of(l1_tables@)[i]) % FRAME_SIZE == 0
                && frames_of(l1_tables@)[i] < crate::mem::frame::MAX_PHYS
                && alloc.used().contains(frames_of(l1_tables@)[i])
                && !Set::<u64>::empty().contains(frames_of(l1_tables@)[i]) by {
                assert(l1_tables@[i].wf());
                assert(s.pages().contains(l1_tables@[i].addr()));
            }
            assert forall|i: int, j: int| 0 <= i < j < frames_of(l1_tables@).len() implies
                (#[trigger] frames_of(l1_tables@)[i]) != (#[trigger] frames_of(l1_tables@)[j]) by {
                assert(l1_tables@[i].addr() != l1_tables@[j].addr());
            }
        }
        Self::release_all(l1_tables, alloc, Ghost(Set::empty()));
        let ghost u1 = alloc.used();
        proof {
            assert forall|i: int| 0 <= i < frames_of(l0_tables@).len() implies
                (#[trigger] frames_of(l0_tables@)[i]) % FRAME_SIZE == 0
                && frames_of(l0_tables@)[i] < crate::mem::frame::MAX_PHYS
                && alloc.used().contains(frames_of(l0_tables@)[i])
                && !Set::<u64>::empty().contains(frames_of(l0_tables@)[i]) by {
                let a = l0_tables@[i].addr();
                assert(l0_tables@[i].wf());
                assert(s.pages().contains(a));
                assert(has_table(l0_tables@, a));
                assert(!has_table(l1_tables@, a));
            }
            assert forall|i: int, j: int| 0 <= i < j < frames_of(l0_tables@).len() implies
                (#[trigger] frames_of(l0_tables@)[i]) != (#[trigger] frames_of(l0_tables@)[j]) by {
                assert(l0_tables@[i].addr() != l0_tables@[j].addr());
            }
        }
        Self::release_all(l0_tables, alloc, Ghost(Set::empty()));
        proof {
            assert(forall|k: int| 0 <= k < l1_tables@.len() ==> l1_tables@[k].addr() != root.addr());
            assert(forall|k: int| 0 <= k < l0_tables@.len() ==> l0_tables@[k].addr() != root.addr());
            assert(s.root == root);
            assert(s.pages().contains(root.addr()));
            assert(u0.contains(root.addr()));
            assert(u1.contains(root.addr()) == (u0.contains(root.addr())
                && forall|k: int| 0 <= k < l1_tables@.len() ==> l1_tables@[k].addr() != root.addr()));
            assert(u1.contains(root.addr()));
            assert(alloc.used().contains(root.addr()));
        }
        alloc.dealloc_frame(root.page);
        proof {
            assert forall|a: u64| #[trigger] alloc.used().contains(a)
                == (u0.contains(a) && !s.pages().contains(a)) by {
                if has_table(l1_tables@, a) {
                    let k = choose|k: int| 0 <= k < l1_tables@.len() && (#[trigger] l1_tables@[k]).addr() == a;
                }
                if has_table(l0_tables@, a) {
                    let k = choose|k: int| 0 <= k < l0_tables@.len() && (#[trigger] l0_tables@[k]).addr() == a;
                }
            }
        }
    }
}

impl PageTableManager {
    /// Takes `tid`'s user address space out of the manager, without
    /// releasing it.
    #[verifier::spinoff_prover]
    pub fn remove_user(&mut self, tid: Tid, alloc: &FrameAllocator) -> (r: Option<AddressSpace>)
        requires
            old(self).wf(alloc),
        ensures
            final(self).wf(alloc),
            final(self).kernel_space() == old(self).kernel_space(),
            !final(self).has_space(tid),
            forall|t: Tid| t != tid ==> #[trigger] final(self).has_space(t) == old(self).has_space(t)
                && (old(self).has_space(t) ==> final(self).user_space(t) == old(self).user_space(t)),
            match r {
                Some(sp) => {
                    &&& old(self).has_space(tid)
                    &&& sp == old(self).user_space(tid)
                    &&& sp.wf()
                    &&& sp.owned_by(alloc)
                    &&& forall|a: u64| #[trigger] final(self).holds_page(a) == (old(self).holds_page(a) && !sp.pages().contains(a))
                    &&& forall|a: u64| #[trigger] sp.pages().contains(a) ==> old(self).holds_page(a)
                },
                None => !old(self).has_space(tid) && *final(self) == *old(self),
            },
    {
        let ghost m0 = *self;
        match self.find_user(tid) {
            Some(i) => {
                proof { m0.lemma_user_index(tid, i as int); }
                let (_, sp) = self.user.remove(i);
                proof {
                    let u0 = m0.user@;
                    assert(self.user@ =~= u0.remove(i as int));
                    assert(sp == u0[i as int].1);
                    assert forall|k: int| 0 <= k < self.user@.len() implies (#[trigger] self.user@[k]).0 != tid by {
                        if k < i {
                            assert(self.user@[k] == u0[k]);
                        } else {
                            assert(self.user@[k] == u0[k + 1]);
                        }
                    }
                    assert forall|t: Tid| t != tid implies #[trigger] self.has_space(t) == m0.has_space(t)
                        && (m0.has_space(t) ==> self.user_space(t) == m0.user_space(t)) by {
                        if m0.has_space(t) {
                            let j = user_index(u0, t);
                            assert(j != i);
                            let j2 = if j < i { j } else { j - 1 };
                            assert(self.user@[j2] == u0[j]);
                            self.lemma_user_index(t, j2);
                        }
                        if self.has_space(t) {
                            let j2 = user_index(self.user@, t);
                            let j = if j2 < i { j2 } else { j2 + 1 };
                            assert(self.user@[j2] == u0[j]);
                        }
                    }
                    assert forall|a: u64| #[trigger] self.holds_page(a) == (m0.holds_page(a) && !sp.pages().contains(a)) by {
                        if self.holds_page(a) && !self.kernel.pages().contains(a) {
                            let k = choose|k: int| 0 <= k < self.user@.len() && (#[trigger] self.user@[k]).1.pages().contains(a);
                            let k0 = if k < i { k } else { k + 1 };
                            assert(self.user@[k] == u0[k0]);
                            assert(k0 != i);
                        }
                        if self.holds_page(a) && self.kernel.pages().contains(a) {
                            assert(!sp.pages().contains(a));
                        }
                        if m0.holds_page(a) && !sp.pages().contains(a) && !m0.kernel.pages().contains(a) {
                            let k0 = choose|k: int| 0 <= k < u0.len() && (#[trigger] u0[k]).1.pages().contains(a);
                            assert(k0 != i);
                            let k = if k0 < i { k0 } else { k0 - 1 };
                            assert(self.user@[k] == u0[k0]);
                        }
                    }
                    assert forall|a: u64| #[trigger] sp.pages().contains(a) implies m0.holds_page(a) by {
                        assert(u0[i as int].1.pages().contains(a));
                    }
                    assert forall|p: int, q: int| 0 <= p < q < self.user@.len() implies (#[trigger] self.user@[p]).0
                        != (#[trigger] self.user@[q]).0 by {
                        let p0 = if p < i { p } else { p + 1 };
                        let q0 = if q < i { q } else { q + 1 };
                        assert(self.user@[p] == u0[p0] && self.user@[q] == u0[q0]);
                    }
                    assert forall|k: int| 0 <= k < self.user@.len() implies (#[trigger] self.user@[k]).1.wf()
                        && self.user@[k].1.owned_by(alloc) by {
                        let k0 = if k < i { k } else { k + 1 };
                        assert(self.user@[k] == u0[k0]);
                    }
                    assert forall|k: int, a: u64| 0 <= k < self.user@.len() && #[trigger] self.user@[k].1.pages().contains(a)
                        implies !self.kernel.pages().contains(a) by {
                        let k0 = if k < i { k } else { k + 1 };
                        assert(self.user@[k] == u0[k0]);
                    }
                    assert forall|p: int, q: int, a: u64| 0 <= p < self.user@.len() && 0 <= q < self.user@.len() && p != q
                        && #[trigger] self.user@[p].1.pages().contains(a) implies !(#[trigger] self.user@[q]).1.pages().contains(a) by {
                        let p0 = if p < i { p } else { p + 1 };
                        let q0 = if q < i { q } else { q + 1 };
                        assert(self.user@[p] == u0[p0] && self.user@[q] == u0[q0]);
                    }
                }
                Some(sp)
            },
            None => None,
        }
    }

    /// Installs `space`, whose tables are in use and held by no address
    /// space, as `tid`'s user address space; the one `tid` had is released.
    pub fn insert_user(&mut self, tid: Tid, space: AddressSpace, alloc: &mut FrameAllocator)
        requires
            old(self).wf(old(alloc)),
            old(alloc).wf(),
            space.wf(),
            space.owned_by(old(alloc)),
            forall|a: u64| #[trigger] space.pages().contains(a) ==> !old(self).holds_page(a),
        ensures
            final(alloc).wf(),
            final(self).wf(final(alloc)),
            final(self).kernel_space() == old(self).kernel_space(),
            final(self).has_space(tid),
            final(self).user_space(tid) == space,
            forall|t: Tid| t != tid ==> #[trigger] final(self).has_space(t) == old(self).has_space(t)
                && (old(self).has_space(t) ==> final(self).user_space(t) == old(self).user_space(t)),
            forall|a: u64| #[trigger] final(self).holds_page(a) ==> old(self).holds_page(a) || space.pages().contains(a),
            forall|a: u64| #[trigger] old(alloc).used().contains(a) && !old(self).holds_page(a) ==> final(alloc).used().contains(a),
    {
        proof {
            assert forall|i: int, a: u64| 0 <= i < self.user@.len() && #[trigger] space.pages().contains(a)
                implies !(#[trigger] self.user@[i]).1.pages().contains(a) by {
                if self.user@[i].1.pages().contains(a) {
                    assert(self.holds_page(a));
                }
            }
        }
        self.install(tid, space, alloc);
    }
}

impl PageTableManager {
    /// Installs `space` as the user space of `tid`, releasing a previous
    /// one.
    fn install(&mut self, tid: Tid, space: AddressSpace, alloc: &mut FrameAllocator)
        requires
            old(self).wf(old(alloc)),
            old(alloc).wf(),
            space.wf(),
            space.owned_by(old(alloc)),
            forall|a: u64| #[trigger] space.pages().contains(a) ==> !old(self).kernel.pages().contains(a),
            forall|i: int, a: u64| 0 <= i < old(self).user@.len() && #[trigger] space.pages().contains(a)
                ==> !(#[trigger] old(self).user@[i]).1.pages().contains(a),
        ensures
            final(alloc).wf(),
            final(self).wf(final(alloc)),
            final(self).kernel_space() == old(self).kernel_space(),
            final(self).has_space(tid),
            final(self).user_space(tid) == space,
            forall|t: Tid| t != tid ==> #[trigger] final(self).has_space(t) == old(self).has_space(t)
                && (old(self).has_space(t) ==> final(self).user_space(t) == old(self).user_space(t)),
            old(self).has_space(tid) ==> forall|a: u64| #[trigger] final(alloc).used().contains(a)
                == (old(alloc).used().contains(a) && !old(self).user_space(tid).pages().contains(a)),
            !old(self).has_space(tid) ==> final(alloc).used() == old(alloc).used(),
            forall|a: u64| #[trigger] final(self).holds_page(a) ==> old(self).holds_page(a) || space.pages().contains(a),
            forall|a: u64| #[trigger] old(alloc).used().contains(a) && !old(self).holds_page(a) ==> final(alloc).used().contains(a),
    {
        let ghost m0 = *self;
        match self.find_user(tid) {
            Some(i) => {
                proof { m0.lemma_user_index(tid, i as int); }
                let (_, old_space) = self.user.remove(i);
                proof {
                    assert(old_space == m0.user@[i as int].1);
                }
                old_space.release(alloc);
                self.user.insert(i, (tid, space));
                proof {
                    assert(self.user@ =~= m0.user@.update(i as int, (tid, space)));
                    assert forall|a: u64| #[trigger] self.kernel.pages().contains(a) implies alloc.used().contains(a) by {
                        assert(!old_space.pages().contains(a));
                    }
                    assert forall|k: int| 0 <= k < self.user@.len() implies (#[trigger] self.user@[k]).1.wf()
                        && self.user@[k].1.owned_by(alloc) by {
                        if k != i {
                            assert(self.user@[k] == m0.user@[k]);
                            assert forall|a: u64| #[trigger] self.user@[k].1.pages().contains(a) implies
                                alloc.used().contains(a) by {
                                assert(!m0.user@[i as int].1.pages().contains(a));
                            }
                        } else {
                            assert forall|a: u64| #[trigger] space.pages().contains(a) implies
                                alloc.used().contains(a) by {
                                assert(!m0.user@[i as int].1.pages().contains(a));
                            }
                        }
                    }
                    self.lemma_user_index(tid, i as int);
                    assert forall|t: Tid| t != tid implies #[trigger] self.has_space(t) == m0.has_space(t)
                        && (m0.has_space(t) ==> self.user_space(t) == m0.user_space(t)) by {
                        if m0.has_space(t) {
                            let k = user_index(m0.user@, t);
                            m0.lemma_user_index(t, k);
                            assert(self.user@[k] == m0.user@[k]);
                            self.lemma_user_index(t, k);
                        }
                        if self.has_space(t) {
                            let k = user_index(self.user@, t);
                            assert(self.user@[k] == m0.user@[k]);
                        }
                    }
                    assert forall|a: u64| #[trigger] self.holds_page(a) implies m0.holds_page(a) || space.pages().contains(a) by {
                        if !self.kernel.pages().contains(a) {
                            let k = choose|k: int| 0 <= k < self.user@.len() && (#[trigger] self.user@[k]).1.pages().contains(a);
                            if k != i {
                                assert(self.user@[k] == m0.user@[k]);
                            }
                        }
                    }
                    assert forall|a: u64| #[trigger] old(alloc).used().contains(a) && !m0.holds_page(a) implies alloc.used().contains(a) by {
                        if old_space.pages().contains(a) {
                            assert(m0.user@[i as int].1.pages().contains(a));
                        }
                    }
                }
            },
            None => {
                self.user.push((tid, space));
                proof {
                    let n = m0.user@.len() as int;
                    assert(self.user@[n] == (tid, space));
                    assert forall|p: int, q: int| 0 <= p < q < self.user@.len() implies
                        (#[trigger] self.user@[p]).0 != (#[trigger] self.user@[q]).0 by {
                        if q == n {
                            assert(self.user@[p] == m0.user@[p]);
                        }
                    }
                    self.lemma_user_index(tid, n);
                    assert forall|t: Tid| t != tid implies #[trigger] self.has_space(t) == m0.has_space(t)
                        && (m0.has_space(t) ==> self.user_space(t) == m0.user_space(t)) by {
                        if m0.has_space(t) {
                            let k = user_index(m0.user@, t);
                            m0.lemma_user_index(t, k);
                            assert(self.user@[k] == m0.user@[k]);
                            self.lemma_user_index(t, k);
                        }
                        if self.has_space(t) {
                            let k = user_index(self.user@, t);
                            if k < n {
                                assert(self.user@[k] == m0.user@[k]);
                            }
                        }
                    }
                    assert forall|a: u64| #[trigger] self.holds_page(a) implies m0.holds_page(a) || space.pages().contains(a) by {
                        if !self.kernel.pages().contains(a) {
                            let k = choose|k: int| 0 <= k < self.user@.len() && (#[trigger] self.user@[k]).1.pages().contains(a);
                            if k != n {
                                assert(self.user@[k] == m0.user@[k]);
                            }
                        }
                    }
                }
            },
        }
    }

    /// Registers a fresh user address space for `tid` whose root inherits
    /// the kernel's lower-half root entries (a previous space of `tid` is
    /// released).
    #[verifier::spinoff_prover]
    pub fn create_user_address_space(&mut self, tid: Tid, alloc: &mut FrameAllocator) -> (r: Result<(), MemError>)
        requires
            old(self).wf(old(alloc)),
            old(alloc).wf(),
        ensures
            final(alloc).wf(),
            final(self).wf(final(alloc)),
            final(self).kernel_space() == old(self).kernel_space(),
            forall|t: Tid| t != tid ==> #[trigger] final(self).has_space(t) == old(self).has_space(t)
                && (old(self).has_space(t) ==> final(self).user_space(t) == old(self).user_space(t)),
            match r {
                Ok(()) => {
                    &&& final(self).has_space(tid)
                    &&& forall|va: u64| #[trigger] final(self).user_space(tid).translate(va) == None::<PageTableEntry>
                    &&& forall|k: int| 0 <= k < 256 ==> #[trigger] final(self).user_space(tid).root_entries()[k]
                        == old(self).kernel_space().root_entries()[k]
                    &&& forall|k: int| 256 <= k < 512 ==> (#[trigger] final(self).user_space(tid).root_entries()[k]).0 == 0
                    &&& final(self).user_space(tid).pages() == set![final(self).user_space(tid).root_addr()]
                    &&& !old(alloc).used().contains(final(self).user_space(tid).root_addr())
                    &&& old(self).kernel_space().tree_shaped()
                        ==> final(self).user_space(tid).tree_shaped_in(old(self).kernel_space().pages())
                    &&& old(self).kernel_space().pages().subset_of(final(alloc).used())
                },
                Err(e) => e == MemError::OutOfMemory && *final(self) == *old(self),
            },
            forall|a: u64| #[trigger] final(self).holds_page(a) ==> old(self).holds_page(a) || !old(alloc).used().contains(a),
            forall|a: u64| #[trigger] old(alloc).used().contains(a) && !old(self).holds_page(a) ==> final(alloc).used().contains(a),
    {
        let ghost u0 = alloc.used();
        let mut root = PageTableHandle::create(alloc)?;
        self.kernel.root.copy_low_half(&mut root);
        let space = AddressSpace { root, l1_tables: Vec::new(), l0_tables: Vec::new() };
        proof {
            assert(space.pages() =~= set![space.root_addr()]) by {
                assert forall|a: u64| space.pages().contains(a) implies a == space.root_addr() by {
                    assert(!has_table(space.l1_tables@, a));
                    assert(!has_table(space.l0_tables@, a));
                }
            }
            assert forall|va: u64| #[trigger] space.translate(va) == None::<PageTableEntry> by {
                assert(!has_table(space.l1_tables@, spec_target(space.root_entry(va))));
            }
            assert forall|a: u64| #[trigger] space.pages().contains(a) implies alloc.used().contains(a) by {
                assert(!has_table(space.l1_tables@, a));
                assert(!has_table(space.l0_tables@, a));
            }
            assert forall|a: u64| #[trigger] space.pages().contains(a) implies !self.kernel.pages().contains(a) by {
                assert(a == space.root_addr());
            }
            assert forall|i: int, a: u64| 0 <= i < self.user@.len() && #[trigger] space.pages().contains(a)
                implies !(#[trigger] self.user@[i]).1.pages().contains(a) by {
                assert(a == space.root_addr());
            }
            assert(self.wf(alloc)) by {
                assert forall|a: u64| #[trigger] self.kernel.pages().contains(a) implies alloc.used().contains(a) by {
                    assert(u0.contains(a));
                }
                assert forall|k: int| 0 <= k < self.user@.len() implies (#[trigger] self.user@[k]).1.wf()
                    && self.user@[k].1.owned_by(alloc) by {
                    assert forall|a: u64| #[trigger] self.user@[k].1.pages().contains(a) implies
                        alloc.used().contains(a) by {
                        assert(u0.contains(a));
                    }
                }
            }
        }
        proof {
            AddressSpace::lemma_fresh_user_tree(self.kernel, space);
            assert forall|a: u64| #[trigger] self.kernel.pages().contains(a) implies alloc.used().contains(a) by {
                assert(u0.contains(a));
            }
        }
        let ghost m1 = *self;
        let ghost a1 = *alloc;
        self.install(tid, space, alloc);
        proof {
            assert forall|a: u64| #[trigger] self.holds_page(a) implies old(self).holds_page(a) || !u0.contains(a) by {
                if !m1.holds_page(a) {
                    assert(space.pages().contains(a));
                    assert(a == space.root_addr());
                }
            }
            assert forall|a: u64| #[trigger] u0.contains(a) && !old(self).holds_page(a) implies alloc.used().contains(a) by {
                assert(a1.used().contains(a));
            }
        }
        Ok(())
    }
}

/// The flags of kernel identity mappings: readable, writable, executable.
pub fn rwx_flags() -> (r: PageTableEntryFlags)
    ensures
        r == spec_rwx(),
        r.flag(R_BIT) && r.flag(W_BIT) && r.flag(X_BIT),
        !r.flag(V_BIT) && !r.flag(U_BIT) && !r.flag(G_BIT) && !r.flag(A_BIT) && !r.flag(D_BIT),
{
    proof {
        let e: u64 = 0b1110;
        assert(spec_bit(e, 1) && spec_bit(e, 2) && spec_bit(e, 3) && !spec_bit(e, 0) && !spec_bit(e, 4)
            && !spec_bit(e, 5) && !spec_bit(e, 6) && !spec_bit(e, 7)) by (bit_vector)
            requires e == 0b1110u64;
    }
    PageTableEntryFlags(0b1110)
}

impl PageTableManager {
    /// Maps `va` to `pa` in the kernel address space (see
    /// [`AddressSpace::map`]); TLB flushing is left to the caller.
    pub fn kernel_map(
        &mut self,
        va: VirtualAddr,
        pa: PhysicalAddr,
        flags: PageTableEntryFlags,
        alloc: &mut FrameAllocator,
    ) -> (r: Result<(), MemError>)
        requires
            old(self).wf(old(alloc)),
            old(alloc).wf(),
        ensures
            final(alloc).wf(),
            final(self).wf(final(alloc)),
            old(alloc).used().subset_of(final(alloc).used()),
            final(self).users_kept(old(self), None),
            r is Ok ==> (final(self).kernel_space().translate(va.0) matches Some(e) && maps_to(e, pa.0, flags)),
            (r == Err::<(), MemError>(MemError::PageTableMissing)) == old(self).kernel_space().blocked(va.0),
            r == Err::<(), MemError>(MemError::OutOfMemory) ==> !old(self).kernel_space().reaches_l0(va.0),
            r == Err::<(), MemError>(MemError::OutOfMemory)
                ==> old(alloc).page_count() < old(self).kernel_space().tables_needed(va.0),
            final(alloc).page_count() + old(self).kernel_space().tables_needed(va.0) >= old(alloc).page_count(),
            forall|w: u64| !old(self).kernel_space().blocked(w) ==> !#[trigger] final(self).kernel_space().blocked(w),
            old(self).kernel_space().tree_shaped() ==> final(self).kernel_space().tree_shaped(),
            r is Ok || r == Err::<(), MemError>(MemError::PageTableMissing)
                || r == Err::<(), MemError>(MemError::OutOfMemory),
            final(self).kernel_space().root_addr() == old(self).kernel_space().root_addr(),
            forall|w: u64| !final(self).kernel_space().same_leaf(va.0, w)
                ==> #[trigger] final(self).kernel_space().translate(w) == old(self).kernel_space().translate(w),
            r is Err ==> forall|w: u64| #[trigger] final(self).kernel_space().translate(w) == old(self).kernel_space().translate(w),
    {
        let ghost m0 = *self;
        let r = self.kernel.map(alloc, va, pa, flags);
        proof {
            assert forall|i: int, a: u64| 0 <= i < self.user@.len() && #[trigger] self.user@[i].1.pages().contains(a)
                implies !self.kernel.pages().contains(a) by {
                assert(old(alloc).used().contains(a));
            }
            assert forall|k: int| 0 <= k < self.user@.len() implies (#[trigger] self.user@[k]).1.wf()
                && self.user@[k].1.owned_by(alloc) by {
                assert forall|a: u64| #[trigger] self.user@[k].1.pages().contains(a) implies
                    alloc.used().contains(a) by {
                    assert(old(alloc).used().contains(a));
                }
            }
        }
        r
    }

    /// Clears the mapping of `va` in the kernel address space.
    pub fn kernel_unmap(&mut self, va: VirtualAddr, alloc: &FrameAllocator) -> (r: Result<(), MemError>)
        requires
            old(self).wf(alloc),
        ensures
            r is Ok,
            final(self).wf(alloc),
            final(self).kernel_space().translate(va.0) == None::<PageTableEntry>,
            forall|w: u64| !old(self).kernel_space().same_leaf(va.0, w)
                ==> #[trigger] final(self).kernel_space().translate(w) == old(self).kernel_space().translate(w),
            final(self).users_kept(old(self), None),
    {
        self.kernel.unmap(va);
        Ok(())
    }

    /// Maps `va` to `pa` in `tid`'s address space; `AddressSpaceNotFound`
    /// exactly when `tid` has none.
    #[verifier::spinoff_prover]
    pub fn user_map(
        &mut self,
        tid: Tid,
        va: VirtualAddr,
        pa: PhysicalAddr,
        flags: PageTableEntryFlags,
        alloc: &mut FrameAllocator,
    ) -> (r: Result<(), MemError>)
        requires
            old(self).wf(old(alloc)),
            old(alloc).wf(),
        ensures
            final(alloc).wf(),
            final(self).wf(final(alloc)),
            old(alloc).used().subset_of(final(alloc).used()),
            final(self).kernel_space() == old(self).kernel_space(),
            final(self).users_kept(old(self), Some(tid)),
            forall|a: u64| #[trigger] final(self).holds_page(a) ==> old(self).holds_page(a)
                || !old(alloc).used().contains(a),
            old(self).has_space(tid) ==> final(self).user_space(tid).root_addr() == old(self).user_space(tid).root_addr(),
            (r == Err::<(), MemError>(MemError::AddressSpaceNotFound)) == !old(self).has_space(tid),
            !old(self).has_space(tid) ==> final(alloc).page_count() == old(alloc).page_count(),
            old(self).has_space(tid) ==> {
                &&& r is Ok ==> (final(self).user_space(tid).translate(va.0) matches Some(e) && maps_to(e, pa.0, flags))
                &&& (r == Err::<(), MemError>(MemError::PageTableMissing)) == old(self).user_space(tid).blocked(va.0)
                &&& r == Err::<(), MemError>(MemError::OutOfMemory) ==> !old(self).user_space(tid).reaches_l0(va.0)
                &&& r == Err::<(), MemError>(MemError::OutOfMemory)
                    ==> old(alloc).page_count() < old(self).user_space(tid).tables_needed(va.0)
                &&& final(alloc).page_count() + old(self).user_space(tid).tables_needed(va.0) >= old(alloc).page_count()
                &&& forall|w: u64| !old(self).user_space(tid).blocked(w) ==> !#[trigger] final(self).user_space(tid).blocked(w)
                &&& old(self).user_space(tid).tree_shaped() ==> final(self).user_space(tid).tree_shaped()
                &&& forall|u: Set<u64>| #[trigger] old(self).user_space(tid).tree_shaped_in(u)
                    && u.subset_of(old(alloc).used()) ==> final(self).user_space(tid).tree_shaped_in(u)
                &&& forall|w: u64| !final(self).user_space(tid).same_leaf(va.0, w)
                    ==> #[trigger] final(self).user_space(tid).translate(w) == old(self).user_space(tid).translate(w)
                &&& r is Err ==> forall|w: u64|
                    #[trigger] final(self).user_space(tid).translate(w) == old(self).user_space(tid).translate(w)
            },
    {
        let ghost m0 = *self;
        let i = match self.find_user(tid) {
            Some(i) => i,
            None => return Err(MemError::AddressSpaceNotFound),
        };
        proof { m0.lemma_user_index(tid, i as int); }
        let (t, mut space) = self.user.remove(i);
        let r = space.map(alloc, va, pa, flags);
        self.user.insert(i, (t, space));
        proof {
            assert(self.user@ =~= m0.user@.update(i as int, (t, space)));
            assert forall|k: int| 0 <= k < self.user@.len() implies (#[trigger] self.user@[k]).1.wf()
                && self.user@[k].1.owned_by(alloc) by {
                if k != i {
                    assert(self.user@[k] == m0.user@[k]);
                    assert forall|a: u64| #[trigger] self.user@[k].1.pages().contains(a) implies
                        alloc.used().contains(a) by {
                        assert(old(alloc).used().contains(a));
                    }
                }
            }
            assert forall|a: u64| #[trigger] self.kernel.pages().contains(a) implies alloc.used().contains(a) by {
                assert(old(alloc).used().contains(a));
            }
            assert forall|k: int, a: u64| 0 <= k < self.user@.len() && #[trigger] self.user@[k].1.pages().contains(a)
                implies !self.kernel.pages().contains(a) by {
                if k == i {
                    if !m0.user@[k].1.pages().contains(a) {
                        assert(!old(alloc).used().contains(a));
                    }
                } else {
                    assert(self.user@[k] == m0.user@[k]);
                }
            }
            assert forall|p: int, q: int, a: u64| 0 <= p < self.user@.len() && 0 <= q < self.user@.len() && p != q
                && #[trigger] self.user@[p].1.pages().contains(a) implies !(#[trigger] self.user@[q]).1.pages().contains(a) by {
                if p == i {
                    assert(self.user@[q] == m0.user@[q]);
                    if !m0.user@[p].1.pages().contains(a) {
                        assert(!old(alloc).used().contains(a));
                    }
                } else if q == i {
                    assert(self.user@[p] == m0.user@[p]);
                    if self.user@[q].1.pages().contains(a) && !m0.user@[q].1.pages().contains(a) {
                        assert(!old(alloc).used().contains(a));
                    }
                } else {
                    assert(self.user@[p] == m0.user@[p]);
                    assert(self.user@[q] == m0.user@[q]);
                }
            }
            assert forall|p: int, q: int| 0 <= p < q < self.user@.len() implies
                (#[trigger] self.user@[p]).0 != (#[trigger] self.user@[q]).0 by {
                assert(self.user@[p].0 == m0.user@[p].0);
                assert(self.user@[q].0 == m0.user@[q].0);
            }
            self.lemma_user_index(tid, i as int);
            assert forall|t2: Tid| #[trigger] self.has_space(t2) == m0.has_space(t2)
                && (t2 != tid && m0.has_space(t2) ==> self.user_space(t2) == m0.user_space(t2)) by {
                if m0.has_space(t2) {
                    let k = user_index(m0.user@, t2);
                    m0.lemma_user_index(t2, k);
                    assert(self.user@[k].0 == m0.user@[k].0);
                    self.lemma_user_index(t2, k);
                    if k != i as int {
                        assert(self.user@[k] == m0.user@[k]);
                    }
                }
                if self.has_space(t2) {
                    let k = user_index(self.user@, t2);
                    assert(self.user@[k].0 == m0.user@[k].0);
                }
            }
            assert forall|a: u64| #[trigger] self.holds_page(a) implies m0.holds_page(a)
                || !old(alloc).used().contains(a) by {
                if !self.kernel.pages().contains(a) {
                    let k = choose|k: int| 0 <= k < self.user@.len() && (#[trigger] self.user@[k]).1.pages().contains(a);
                    if k != i {
                        assert(self.user@[k] == m0.user@[k]);
                    } else if m0.user@[k].1.pages().contains(a) {
                        assert(m0.holds_page(a));
                    }
                }
            }
        }
        r
    }

    /// Clears the mapping of `va` in `tid`'s address space;
    /// `AddressSpaceNotFound` exactly when `tid` has none.
    #[verifier::spinoff_prover]
    pub fn user_unmap(&mut self, tid: Tid, va: VirtualAddr, alloc: &FrameAllocator) -> (r: Result<(), MemError>)
        requires
            old(self).wf(alloc),
        ensures
            final(self).wf(alloc),
            final(self).kernel_space() == old(self).kernel_space(),
            final(self).users_kept(old(self), Some(tid)),
            forall|a: u64| #[trigger] final(self).holds_page(a) ==> old(self).holds_page(a),
            (r == Err::<(), MemError>(MemError::AddressSpaceNotFound)) == !old(self).has_space(tid),
            r is Ok ==> final(self).user_space(tid).translate(va.0) == None::<PageTableEntry>,
            r is Ok ==> forall|w: u64| !old(self).user_space(tid).same_leaf(va.0, w)
                ==> #[trigger] final(self).user_space(tid).translate(w) == old(self).user_space(tid).translate(w),
            r is Ok ==> forall|w: u64| #[trigger] final(self).user_space(tid).blocked(w) == old(self).user_space(tid).blocked(w),
            r is Ok ==> forall|w: u64| old(self).user_space(tid).translate(w) == None::<PageTableEntry>
                ==> #[trigger] final(self).user_space(tid).translate(w) == None::<PageTableEntry>,
            r is Ok || r == Err::<(), MemError>(MemError::AddressSpaceNotFound),
    {
        let ghost m0 = *self;
        let i = match self.find_user(tid) {
            Some(i) => i,
            None => return Err(MemError::AddressSpaceNotFound),
        };
        proof { m0.lemma_user_index(tid, i as int); }
        let (t, mut space) = self.user.remove(i);
        space.unmap(va);
        self.user.insert(i, (t, space));
        proof {
            assert(self.user@ =~= m0.user@.update(i as int, (t, space)));
            assert forall|k: int| 0 <= k < self.user@.len() implies (#[trigger] self.user@[k]).1.wf()
                && self.user@[k].1.owned_by(alloc) by {
                if k != i {
                    assert(self.user@[k] == m0.user@[k]);
                }
            }
            assert forall|k: int, a: u64| 0 <= k < self.user@.len() && #[trigger] self.user@[k].1.pages().contains(a)
                implies !self.kernel.pages().contains(a) by {
                if k != i {
                    assert(self.user@[k] == m0.user@[k]);
                }
            }
            assert forall|p: int, q: int, a: u64| 0 <= p < self.user@.len() && 0 <= q < self.user@.len() && p != q
                && #[trigger] self.user@[p].1.pages().contains(a) implies !(#[trigger] self.user@[q]).1.pages().contains(a) by {
                if p != i { assert(self.user@[p] == m0.user@[p]); }
                if q != i { assert(self.user@[q] == m0.user@[q]); }
            }
            assert forall|p: int, q: int| 0 <= p < q < self.user@.len() implies
                (#[trigger] self.user@[p]).0 != (#[trigger] self.user@[q]).0 by {
                assert(self.user@[p].0 == m0.user@[p].0);
                assert(self.user@[q].0 == m0.user@[q].0);
            }
            self.lemma_user_index(tid, i as int);
            assert forall|t2: Tid| #[trigger] self.has_space(t2) == m0.has_space(t2)
                && (t2 != tid && m0.has_space(t2) ==> self.user_space(t2) == m0.user_space(t2)) by {
                if m0.has_space(t2) {
                    let k = user_index(m0.user@, t2);
                    m0.lemma_user_index(t2, k);
                    assert(self.user@[k].0 == m0.user@[k].0);
                    self.lemma_user_index(t2, k);
                    if k != i as int {
                        assert(self.user@[k] == m0.user@[k]);
                    }
                }
                if self.has_space(t2) {
                    let k = user_index(self.user@, t2);
                    assert(self.user@[k].0 == m0.user@[k].0);
                }
            }
            assert(self.users_kept(&m0, Some(tid)));
            assert forall|a: u64| #[trigger] self.holds_page(a) implies m0.holds_page(a) by {
                if !self.kernel.pages().contains(a) {
                    let k = choose|k: int| 0 <= k < self.user@.len() && (#[trigger] self.user@[k]).1.pages().contains(a);
                    if k != i {
                        assert(self.user@[k] == m0.user@[k]);
                    }
                    assert(m0.user@[k].1.pages().contains(a));
                }
            }
        }
        Ok(())
    }
}

impl PageTableManager {
    /// Maps `va` to `pa` in the address space selected by `id`.
    pub fn map(
        &mut self,
        id: AddressSpaceId,
        va: VirtualAddr,
        pa: PhysicalAddr,
        flags: PageTableEntryFlags,
        alloc: &mut FrameAllocator,
    ) -> (r: Result<(), MemError>)
        requires
            old(self).wf(old(alloc)),
            old(alloc).wf(),
        ensures
            final(alloc).wf(),
            final(self).wf(final(alloc)),
            old(alloc).used().subset_of(final(alloc).used()),
            id != AddressSpaceId::Kernel ==> final(self).kernel_space() == old(self).kernel_space(),
            final(self).users_kept(old(self), id.user()),
            (r == Err::<(), MemError>(MemError::AddressSpaceNotFound)) == !old(self).has_id(id),
            old(self).has_id(id) ==> {
                &&& r is Ok ==> (final(self).space(id).translate(va.0) matches Some(e) && maps_to(e, pa.0, flags))
                &&& (r == Err::<(), MemError>(MemError::PageTableMissing)) == old(self).space(id).blocked(va.0)
                &&& r == Err::<(), MemError>(MemError::OutOfMemory) ==> !old(self).space(id).reaches_l0(va.0)
            },
    {
        match id {
            AddressSpaceId::Kernel => self.kernel_map(va, pa, flags, alloc),
            AddressSpaceId::User(tid) => self.user_map(tid, va, pa, flags, alloc),
        }
    }

    /// Clears the mapping of `va` in the address space selected by `id`.
    pub fn unmap(&mut self, id: AddressSpaceId, va: VirtualAddr, alloc: &FrameAllocator) -> (r: Result<(), MemError>)
        requires
            old(self).wf(alloc),
        ensures
            final(self).wf(alloc),
            id != AddressSpaceId::Kernel ==> final(self).kernel_space() == old(self).kernel_space(),
            final(self).users_kept(old(self), id.user()),
            (r == Err::<(), MemError>(MemError::AddressSpaceNotFound)) == !old(self).has_id(id),
            r is Ok || r == Err::<(), MemError>(MemError::AddressSpaceNotFound),
            r is Ok ==> final(self).space(id).translate(va.0) == None::<PageTableEntry>,
    {
        match id {
            AddressSpaceId::Kernel => self.kernel_unmap(va, alloc),
            AddressSpaceId::User(tid) => self.user_unmap(tid, va, alloc),
        }
    }

    /// Maps every page of `[start, end)` to itself, readable, writable and
    /// executable, in the kernel address space; stops at the first page
    /// that fails.
    pub fn identity_map(&mut self, start: u64, end: u64, alloc: &mut FrameAllocator) -> (r: Result<(), MemError>)
        requires
            old(self).wf(old(alloc)),
            old(alloc).wf(),
        ensures
            final(alloc).wf(),
            final(self).wf(final(alloc)),
            old(alloc).used().subset_of(final(alloc).used()),
            final(self).users_kept(old(self), None),
            start >= end ==> r is Ok && *final(self) == *old(self),
            r is Ok || r == Err::<(), MemError>(MemError::PageTableMissing)
                || r == Err::<(), MemError>(MemError::OutOfMemory),
            r is Ok && start < end ==> (final(self).kernel_space().translate(spec_last_page(start, end))
                matches Some(e) && maps_to(e, spec_last_page(start, end), spec_rwx())),
            final(self).kernel_space().root_addr() == old(self).kernel_space().root_addr(),
            r == Err::<(), MemError>(MemError::OutOfMemory) ==> old(alloc).page_count() < 2 * span_pages(start, end),
            final(alloc).page_count() + 2 * span_pages(start, end) >= old(alloc).page_count(),
            r == Err::<(), MemError>(MemError::PageTableMissing) ==> exists|k: int| 0 <= k < span_pages(start, end)
                && #[trigger] old(self).kernel_space().blocked((start + k * FRAME_SIZE) as u64),
            forall|w: u64| !old(self).kernel_space().blocked(w) ==> !#[trigger] final(self).kernel_space().blocked(w),
            old(self).kernel_space().tree_shaped() ==> final(self).kernel_space().tree_shaped()
                && r != Err::<(), MemError>(MemError::PageTableMissing),
            old(self).kernel_space().tree_shaped() && end <= SV39_SPAN ==> forall|w: u64| w < SV39_SPAN
                && ident_at(old(self).kernel_space(), w) ==> #[trigger] ident_at(final(self).kernel_space(), w),
            old(self).kernel_space().tree_shaped() && end <= SV39_SPAN && r is Ok ==> forall|k: int|
                0 <= k < span_pages(start, end) ==> #[trigger] ident_at(final(self).kernel_space(), (start + k * FRAME_SIZE) as u64),
    {
        let flags = rwx_flags();
        let mut i = start;
        if start >= end {
            return Ok(());
        }
        let ghost s0 = *self;
        let ghost pc0 = alloc.page_count();
        let mut res: Result<(), MemError> = Ok(());
        loop
            invariant_except_break
                start <= i < end,
                (i - start) % (FRAME_SIZE as int) == 0,
                res is Ok,
                alloc.page_count() + 2 * ((i - start) / FRAME_SIZE as int) >= pc0,
                s0.kernel_space().tree_shaped() && end <= SV39_SPAN ==> forall|k: int|
                    0 <= k < (i - start) / FRAME_SIZE as int ==> #[trigger] ident_at(self.kernel_space(), (start + k * FRAME_SIZE) as u64),
            invariant
                pc0 == old(alloc).page_count(),
                forall|w: u64| !s0.kernel_space().blocked(w) ==> !#[trigger] self.kernel_space().blocked(w),
                s0.kernel_space().tree_shaped() ==> self.kernel_space().tree_shaped(),
                s0.kernel_space().tree_shaped() && end <= SV39_SPAN ==> forall|w: u64| w < SV39_SPAN
                    && ident_at(s0.kernel_space(), w) ==> #[trigger] ident_at(self.kernel_space(), w),
                alloc.wf(),
                self.wf(alloc),
                old(alloc).used().subset_of(alloc.used()),
                flags == spec_rwx(),
                s0 == *old(self),
                self.users_kept(&s0, None),
                self.kernel_space().root_addr() == s0.kernel_space().root_addr(),
            ensures
                res is Ok || res == Err::<(), MemError>(MemError::PageTableMissing)
                    || res == Err::<(), MemError>(MemError::OutOfMemory),
                res is Ok ==> (self.kernel_space().translate(spec_last_page(start, end))
                    matches Some(e) && maps_to(e, spec_last_page(start, end), spec_rwx())),
                res == Err::<(), MemError>(MemError::OutOfMemory) ==> pc0 < 2 * span_pages(start, end),
                alloc.page_count() + 2 * span_pages(start, end) >= pc0,
                res == Err::<(), MemError>(MemError::PageTableMissing) ==> exists|k: int| 0 <= k < span_pages(start, end)
                    && #[trigger] s0.kernel_space().blocked((start + k * FRAME_SIZE) as u64),
                s0.kernel_space().tree_shaped() && end <= SV39_SPAN && res is Ok ==> forall|k: int|
                    0 <= k < span_pages(start, end) ==> #[trigger] ident_at(self.kernel_space(), (start + k * FRAME_SIZE) as u64),
            decreases end - i,
        {
            let ghost mid = *self;
            let ghost amid = *alloc;
            let ghost k = (i - start) / FRAME_SIZE as int;
            proof {
                assert(k + 1 <= span_pages(start, end)) by (nonlinear_arith)
                    requires i - start == k * 4096, start <= i < end, k >= 0,
                        span_pages(start, end) == (end - start + 4095) / 4096;
                assert(i == (start + k * FRAME_SIZE) as u64);
            }
            let r = self.kernel_map(VirtualAddr(i), PhysicalAddr(i), flags, alloc);
            proof {
                assert(self.users_kept(&mid, None));
                PageTableManager::lemma_users_kept_trans(*self, mid, s0);
                assert(mid.kernel_space().tables_needed(i) <= 2);
                if s0.kernel_space().tree_shaped() && end <= SV39_SPAN && r is Ok {
                    let ks = self.kernel_space();
                    assert forall|w: u64| w < SV39_SPAN && ident_at(mid.kernel_space(), w)
                        implies #[trigger] ident_at(ks, w) by {
                        if ks.same_leaf(i, w) {
                            AddressSpace::lemma_tree_leaf(ks, i, w, Set::empty());
                            lemma_same_indices(i, w);
                            AddressSpace::lemma_same_leaf_translate(ks, i, w);
                        }
                    }
                    assert forall|j: int| 0 <= j <= k implies #[trigger] ident_at(ks, (start + j * FRAME_SIZE) as u64) by {
                        if j < k {
                            assert((start + j * FRAME_SIZE) < SV39_SPAN);
                            assert(ident_at(mid.kernel_space(), (start + j * FRAME_SIZE) as u64));
                        }
                    }
                }
                if r is Err {
                    assert forall|w: u64| w < SV39_SPAN && ident_at(mid.kernel_space(), w)
                        implies #[trigger] ident_at(self.kernel_space(), w) by {
                        assert(self.kernel_space().translate(w) == mid.kernel_space().translate(w));
                    }
                }
            }
            if r.is_err() {
                proof {
                    if r == Err::<(), MemError>(MemError::PageTableMissing) {
                        assert(s0.kernel_space().blocked((start + k * FRAME_SIZE) as u64));
                    }
                }
                res = r;
                break;
            }
            if end - i <= FRAME_SIZE {
                proof {
                    lemma_last_page(start, end, i);
                }
                break;
            }
            i = i + FRAME_SIZE;
            proof {
                assert((i - start) / FRAME_SIZE as int == k + 1);
            }
        }
        res
    }

    /// Every task keeps whether it has a user space, and every space but
    /// the one of `except` is unchanged from `other`.
    pub open spec fn users_kept(&self, other: &Self, except: Option<Tid>) -> bool {
        forall|t: Tid| #[trigger] self.has_space(t) == other.has_space(t)
            && (except != Some(t) && other.has_space(t) ==> self.user_space(t) == other.user_space(t))
    }

    proof fn lemma_users_kept_trans(a: Self, b: Self, c: Self)
        requires
            a.users_kept(&b, None),
            b.users_kept(&c, None),
        ensures
            a.users_kept(&c, None),
    {
        assert forall|t: Tid| #[trigger] a.has_space(t) == c.has_space(t)
            && (None::<Tid> != Some(t) && c.has_space(t) ==> a.user_space(t) == c.user_space(t)) by {
            assert(b.has_space(t) == c.has_space(t));
            assert(a.has_space(t) == b.has_space(t));
            if c.has_space(t) {
                assert(b.user_space(t) == c.user_space(t));
                assert(a.user_space(t) == b.user_space(t));
            }
        }
    }

    /// The `satp` value that activates the address space selected by
    /// `id` (writing the register and flushing the TLB is left to the
    /// caller).
    pub fn activate(&self, id: AddressSpaceId) -> (r: Result<u64, MemError>)
        requires
            self.ids_unique(),
        ensures
            match r {
                Ok(v) => self.has_id(id) && v == spec_satp(self.space(id).root_addr()),
                Err(e) => !self.has_id(id) && e == MemError::AddressSpaceNotFound,
            },
    {
        let root = match id {
            AddressSpaceId::Kernel => self.kernel_root_addr(),
            AddressSpaceId::User(tid) => self.user_root_addr(tid)?,
        };
        Ok(satp_value(root))
    }

    /// Deep-copies the address space selected by `id` and registers the
    /// copy as the user space of `new_tid` (replacing and releasing a
    /// previous one).
    pub fn clone(&mut self, id: AddressSpaceId, new_tid: Tid, alloc: &mut FrameAllocator) -> (r: Result<(), MemError>)
        requires
            old(self).wf(old(alloc)),
            old(alloc).wf(),
        ensures
            final(alloc).wf(),
            final(self).wf(final(alloc)),
            final(self).kernel_space() == old(self).kernel_space(),
            forall|t: Tid| t != new_tid ==> #[trigger] final(self).has_space(t) == old(self).has_space(t)
                && (old(self).has_space(t) ==> final(self).user_space(t) == old(self).user_space(t)),
            forall|a: u64| #[trigger] final(self).holds_page(a) ==> old(self).holds_page(a) || !old(alloc).used().contains(a),
            forall|a: u64| #[trigger] old(alloc).used().contains(a) && !old(self).holds_page(a) ==> final(alloc).used().contains(a),
            match r {
                Ok(()) => old(self).has_id(id) && final(self).has_space(new_tid)
                    && old(self).space(id).is_copy_of(&final(self).user_space(new_tid))
                    && !old(alloc).used().contains(final(self).user_space(new_tid).root_addr())
                    && final(self).user_space(new_tid).root_addr() != old(self).space(id).root_addr(),
                Err(e) => *final(self) == *old(self) && ((e == MemError::AddressSpaceNotFound) == !old(self).has_id(id))
                    && (e == MemError::AddressSpaceNotFound || e == MemError::OutOfMemory),
            },
    {
        let ghost m0 = *self;
        let copy = match id {
            AddressSpaceId::Kernel => self.kernel.try_clone(alloc)?,
            AddressSpaceId::User(tid) => {
                let i = match self.find_user(tid) {
                    Some(i) => i,
                    None => return Err(MemError::AddressSpaceNotFound),
                };
                proof { m0.lemma_user_index(tid, i as int); }
                self.user[i].1.try_clone(alloc)?
            },
        };
        proof {
            assert forall|a: u64| #[trigger] self.kernel.pages().contains(a) implies alloc.used().contains(a) by {
                assert(old(alloc).used().contains(a));
            }
            assert forall|k: int| 0 <= k < self.user@.len() implies (#[trigger] self.user@[k]).1.wf()
                && self.user@[k].1.owned_by(alloc) by {
                assert forall|a: u64| #[trigger] self.user@[k].1.pages().contains(a) implies
                    alloc.used().contains(a) by {
                    assert(old(alloc).used().contains(a));
                }
            }
            assert forall|i: int, a: u64| 0 <= i < self.user@.len() && #[trigger] copy.pages().contains(a)
                implies !(#[trigger] self.user@[i]).1.pages().contains(a) by {
                assert(!old(alloc).used().contains(a));
            }
            assert forall|a: u64| #[trigger] copy.pages().contains(a) implies !self.kernel.pages().contains(a) by {
                assert(!old(alloc).used().contains(a));
            }
        }
        let ghost m1 = *self;
        let ghost a1 = *alloc;
        self.install(new_tid, copy, alloc);
        proof {
            assert forall|a: u64| #[trigger] self.holds_page(a) implies m0.holds_page(a) || !old(alloc).used().contains(a) by {
                if !m1.holds_page(a) {
                    assert(copy.pages().contains(a));
                }
            }
            assert forall|a: u64| #[trigger] old(alloc).used().contains(a) && !m0.holds_page(a) implies alloc.used().contains(a) by {
                assert(a1.used().contains(a));
            }
            assert(copy.pages().contains(copy.root_addr()));
            let src = m0.space(id);
            assert(src.pages().contains(src.root_addr()));
            match id {
                AddressSpaceId::Kernel => {},
                AddressSpaceId::User(t) => {
                    let k = user_index(m0.user@, t);
                    m0.lemma_user_index(t, k);
                    assert(m0.user@[k].1.pages().contains(src.root_addr()));
                },
            }
            assert(m0.holds_page(src.root_addr()));
            m0.lemma_holds_used(old(alloc), src.root_addr());
            assert(old(alloc).used().contains(src.root_addr()));
        }
        Ok(())
    }
}

/// Addresses below this bound are told apart by their three Sv39 table
/// indices.
pub const SV39_SPAN: u64 = 0x80_0000_0000;

/// `va` translates to itself, readable, writable and executable.
pub open spec fn ident_at(s: AddressSpace, va: u64) -> bool {
    s.translate(va) matches Some(e) && maps_to(e, va, spec_rwx())
}

/// Every page of `[start, end)`, walked from `start`, translates to
/// itself, readable, writable and executable.
pub open spec fn ident_range(s: AddressSpace, start: u64, end: u64) -> bool {
    forall|k: int| 0 <= k < span_pages(start, end) ==> #[trigger] ident_at(s, (start + k * FRAME_SIZE) as u64)
}

/// Mapping `i` to itself in a tree-shaped space keeps every address below
/// `SV39_SPAN` that translated to itself doing so.
proof fn lemma_ident_kept(mid: AddressSpace, ks: AddressSpace, i: u64)
    requires
        ks.tree_shaped(),
        i < SV39_SPAN,
        ident_at(ks, i),
        forall|w: u64| !ks.same_leaf(i, w) ==> #[trigger] ks.translate(w) == mid.translate(w),
    ensures
        forall|w: u64| w < SV39_SPAN && ident_at(mid, w) ==> #[trigger] ident_at(ks, w),
{
    assert forall|w: u64| w < SV39_SPAN && ident_at(mid, w) implies #[trigger] ident_at(ks, w) by {
        if ks.same_leaf(i, w) {
            AddressSpace::lemma_tree_leaf(ks, i, w, Set::empty());
            lemma_same_indices(i, w);
            AddressSpace::lemma_same_leaf_translate(ks, i, w);
        } else {
            assert(ks.translate(w) == mid.translate(w));
        }
    }
}

/// Two addresses below `SV39_SPAN` with the same three table indices lie
/// in the same page.
pub proof fn lemma_same_indices(v: u64, w: u64)
    requires
        v < SV39_SPAN,
        w < SV39_SPAN,
        spec_vpn2(v) == spec_vpn2(w),
        spec_vpn1(v) == spec_vpn1(w),
        spec_vpn0(v) == spec_vpn0(w),
    ensures
        spec_ppn(v) == spec_ppn(w),
{
    assert(v < 0x80_0000_0000u64 && w < 0x80_0000_0000u64
        && (v / 0x1000) % 0x200 == (w / 0x1000) % 0x200
        && (v / 0x20_0000) % 0x200 == (w / 0x20_0000) % 0x200
        && (v / 0x4000_0000) % 0x200 == (w / 0x4000_0000) % 0x200
        ==> (v / 0x1000) % 0x1000_0000_0000 == (w / 0x1000) % 0x1000_0000_0000) by (bit_vector);
}

/// How many pages `[start, end)` touches when walked page by page from
/// `start`.
pub open spec fn span_pages(start: u64, end: u64) -> int {
    if start < end { (end - start + 4095) / 4096 } else { 0 }
}

/// The last page start of `[start, end)` when walked in page steps from
/// `start`.
pub open spec fn spec_last_page(start: u64, end: u64) -> u64 {
    (start + ((end - start - 1) as int / FRAME_SIZE as int) * FRAME_SIZE as int) as u64
}

/// Readable, writable and executable, nothing else.
pub open spec fn spec_rwx() -> PageTableEntryFlags {
    PageTableEntryFlags(0b1110)
}

proof fn lemma_last_page(start: u64, end: u64, i: u64)
    requires
        start <= i < end,
        (i - start) % (FRAME_SIZE as int) == 0,
        end - i <= FRAME_SIZE,
    ensures
        spec_last_page(start, end) == i,
{
    let k = (i - start) / (FRAME_SIZE as int);
    assert(i - start == k * 4096);
    assert((end - start - 1) as int / 4096 == k) by (nonlinear_arith)
        requires end - start - 1 == k * 4096 + (end - i - 1), 0 <= end - i - 1 < 4096, k >= 0;
}

/// `satp` selecting Sv39 with the root table at `root`.
pub(crate) fn satp_value(root: PhysicalAddr) -> (r: u64)
    ensures
        r == spec_satp(root.0),
{
    let p = root.ppn();
    SATP_MODE_SV39 * 0x1000_0000_0000_0000 + p
}

/// Builds the kernel's boot mappings: the RAM range `[mem_start, mem_end)`,
/// the UART register page and the MMIO windows of the block and entropy
/// devices, all mapped to themselves with read, write and execute
/// permission.  Returns the `satp` value that activates the kernel address
/// space.
pub fn identity_map(
    manager: &mut PageTableManager,
    alloc: &mut FrameAllocator,
    mem_start: u64,
    mem_end: u64,
    uart: Option<u64>,
    blk: Option<(u64, u64)>,
    rng: Option<(u64, u64)>,
) -> (r: Result<u64, MemError>)
    requires
        old(manager).wf(old(alloc)),
        old(alloc).wf(),
    ensures
        final(alloc).wf(),
        final(manager).wf(final(alloc)),
        old(alloc).used().subset_of(final(alloc).used()),
        final(manager).users_kept(old(manager), None),
        match r {
            Ok(v) => v == spec_satp(old(manager).kernel_space().root_addr()),
            Err(e) => e == MemError::PageTableMissing || e == MemError::OutOfMemory,
        },
        r == Err::<u64, MemError>(MemError::OutOfMemory) ==> old(alloc).page_count() < 2 * (span_pages(mem_start, mem_end)
            + (if uart is Some { 1int } else { 0 })
            + (match blk { Some((s, e)) => span_pages(s, e), None => 0 })
            + (match rng { Some((s, e)) => span_pages(s, e), None => 0 })),
        r == Err::<u64, MemError>(MemError::PageTableMissing) ==> exists|w: u64| #[trigger] old(manager).kernel_space().blocked(w),
        old(manager).kernel_space().tree_shaped() ==> final(manager).kernel_space().tree_shaped()
            && r != Err::<u64, MemError>(MemError::PageTableMissing),
        old(manager).kernel_space().tree_shaped() && r is Ok && mem_end <= SV39_SPAN
            && (uart matches Some(u) ==> u < SV39_SPAN)
            && (blk matches Some((s, e)) ==> e <= SV39_SPAN)
            && (rng matches Some((s, e)) ==> e <= SV39_SPAN) ==> {
                let ks = final(manager).kernel_space();
                &&& ident_range(ks, mem_start, mem_end)
                &&& (uart matches Some(u) ==> ident_at(ks, u))
                &&& (blk matches Some((s, e)) ==> ident_range(ks, s, e))
                &&& (rng matches Some((s, e)) ==> ident_range(ks, s, e))
            },
{
    let ghost m0 = *manager;
    let ghost pc0 = alloc.page_count();
    if let Err(e) = manager.identity_map(mem_start, mem_end, alloc) {
        return Err(e);
    }
    if let Some(u) = uart {
        let ghost m1 = *manager;
        let r = manager.kernel_map(VirtualAddr(u), PhysicalAddr(u), rwx_flags(), alloc);
        proof {
            PageTableManager::lemma_users_kept_trans(*manager, m1, m0);
            if m0.kernel_space().tree_shaped() && r is Ok && u < SV39_SPAN {
                lemma_ident_kept(m1.kernel_space(), manager.kernel_space(), u);
            }
        }
        if let Err(e) = r {
            return Err(e);
        }
    }
    if let Some((s, e)) = blk {
        let ghost m2 = *manager;
        let r = manager.identity_map(s, e, alloc);
        proof { PageTableManager::lemma_users_kept_trans(*manager, m2, m0); }
        if let Err(e) = r {
            return Err(e);
        }
    }
    if let Some((s, e)) = rng {
        let ghost m3 = *manager;
        let r = manager.identity_map(s, e, alloc);
        proof { PageTableManager::lemma_users_kept_trans(*manager, m3, m0); }
        if let Err(e) = r {
            return Err(e);
        }
    }
    manager.activate(AddressSpaceId::Kernel)
}

} // verus!
