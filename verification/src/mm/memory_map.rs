//! Anonymous memory maps: `mmap`, `munmap` and `mremap` over a task's
//! [`MemorySet`].
//!
//! Each [`UserMapping`] is a virtual range backed by one contiguous
//! physical block; page `k` of the range maps to page `k` of the block.
//! Partial unmapping keeps the remaining pieces by moving them to fresh
//! blocks; a block goes back to the frame allocator only when its mapping
//! is removed.
use vstd::prelude::*;
use crate::constants::{PAGE_SIZE, USER_STACK_LOWER_BOUND};
use crate::mem::addr::{PhysicalAddr, VirtualAddr};
use crate::mem::frame::{Frame, FrameAllocator, FRAME_SIZE, MAX_PHYS, spec_block_size, block_of};
use crate::mem::allocators::alloc_frame;
use crate::mem::page_table::{MemError, PageTableEntry, PageTableEntryFlags, PageTableManager, AddressSpace, SV39_SPAN, maps_to, lemma_same_indices, R_BIT, W_BIT, X_BIT, U_BIT, A_BIT, D_BIT};
use crate::mem::addr::{spec_vpn0, spec_vpn1, spec_vpn2, spec_ppn};
use crate::syscall::abi::{ErrorCode, MAP_ANONYMOUS, MAP_FIXED, MAP_FIXED_NOREPLACE, MREMAP_FIXED, MREMAP_MAYMOVE, PROT_EXEC, PROT_READ, PROT_WRITE};
use crate::task::{MemorySet, Tid, UserMapping, Tasks, TaskControlBlock, tids_sorted, has_tid, tcb_of, ms_updated, lemma_index_of};

verus! {

/// End (exclusive) of the Sv39 lower user half.
pub const LOW_HALF_END: u64 = 0x0000_0040_0000_0000;

/// Start of the Sv39 upper half.
pub const HIGH_HALF_START: u64 = 0xffff_ffc0_0000_0000;

/// The `prot` bits `mmap` accepts.
pub const PROT_MASK: u64 = 7;

/// `a` rounded down to a page boundary.
pub open spec fn page_floor(a: u64) -> u64 {
    (a - a % 4096) as u64
}

/// `a` rounded up to a page boundary.
pub open spec fn page_ceil(a: int) -> int {
    ((a + 4095) / 4096) * 4096
}

/// The page-aligned virtual range `[start, end)` of a mapping.
pub open spec fn range_of(m: UserMapping) -> (int, int) {
    (page_floor(m.va.0) as int, page_floor(m.va.0) + page_ceil(m.frame.size as int))
}

/// The mapping's block is page-sized and its ranges fit in 64 bits.
pub open spec fn mapping_ok(m: UserMapping) -> bool {
    &&& m.frame.size % 4096 == 0
    &&& m.frame.start % 4096 == 0
    &&& page_floor(m.va.0) + m.frame.size <= u64::MAX
    &&& m.frame.start + m.frame.size <= u64::MAX
}

/// The mapping's range meets `[start, end)`.
pub open spec fn spec_overlaps(m: UserMapping, start: int, end: int) -> bool {
    range_of(m).0 < end && start < range_of(m).1
}

/// No mapping of `s` meets `[start, end)`.
pub open spec fn spec_range_free(s: Seq<UserMapping>, start: int, end: int) -> bool {
    forall|i: int| 0 <= i < s.len() ==> !spec_overlaps(#[trigger] s[i], start, end)
}

/// The physical address of `va` by the first mapping of `s` covering it.
pub open spec fn phys_at(s: Seq<UserMapping>, va: int) -> Option<u64>
    decreases s.len(),
{
    if s.len() == 0 {
        None
    } else if range_of(s[0]).0 <= va < range_of(s[0]).1 {
        Some((s[0].frame.start + (va - range_of(s[0]).0)) as u64)
    } else {
        phys_at(s.drop_first(), va)
    }
}

/// The flags of the first mapping of `s` that meets `[va, va + 1)`.
pub open spec fn flags_at(s: Seq<UserMapping>, va: int) -> Option<PageTableEntryFlags>
    decreases s.len(),
{
    if s.len() == 0 {
        None
    } else if spec_overlaps(s[0], va, va + 1) {
        Some(s[0].flags)
    } else {
        flags_at(s.drop_first(), va)
    }
}

/// Every page from `start` below `end` is covered by some mapping of `s`.
pub open spec fn spec_fully_mapped(s: Seq<UserMapping>, start: int, end: int) -> bool {
    forall|k: int| 0 <= k && start + k * 4096 < end ==> (#[trigger] phys_at(s, start + k * 4096)) is Some
}

/// `[start, end)` lies in the lower or in the upper Sv39 user half.
pub open spec fn spec_canonical(start: int, end: int) -> bool {
    end <= LOW_HALF_END || start >= HIGH_HALF_START
}

/// The error code a memory error is reported as.
pub open spec fn spec_mem_errno(e: MemError) -> ErrorCode {
    match e {
        MemError::OutOfMemory => ErrorCode::ENOMEM,
        _ => ErrorCode::EINVAL,
    }
}

pub proof fn lemma_floor(a: u64)
    ensures
        a & !0xfffu64 == page_floor(a),
        page_floor(a) <= a,
        page_floor(a) % 4096 == 0,
{
    assert(a & !0xfffu64 == (a - a % 4096) as u64) by (bit_vector);
}

/// `addr` rounded up to a page boundary.
fn align_up(addr: u64) -> (r: u64)
    requires
        addr + 4095 <= u64::MAX,
    ensures
        r == page_ceil(addr as int),
{
    let r = (addr + 4095) & !0xfffu64;
    proof {
        let x = (addr + 4095) as u64;
        assert(x & !0xfffu64 == (x - x % 4096) as u64) by (bit_vector);
        assert(((x as int) - (x as int) % 4096) == ((x as int) / 4096) * 4096) by (nonlinear_arith);
    }
    r
}

/// Reports a memory error as an error code.
fn mem_errno(err: MemError) -> (r: ErrorCode)
    ensures
        r == spec_mem_errno(err),
{
    match err {
        MemError::OutOfMemory => ErrorCode::ENOMEM,
        _ => ErrorCode::EINVAL,
    }
}

/// The page-aligned virtual range of a mapping.
fn mapping_range(m: &UserMapping) -> (r: (u64, u64))
    requires
        mapping_ok(*m),
    ensures
        r.0 == range_of(*m).0,
        r.1 == range_of(*m).1,
        range_of(*m).1 == range_of(*m).0 + m.frame.size,
{
    proof {
        lemma_floor(m.va.0);
        assert((m.frame.size as int + 4095) / 4096 * 4096 == m.frame.size) by (nonlinear_arith)
            requires m.frame.size % 4096 == 0;
    }
    let start = m.va.0 & !0xfffu64;
    let size = align_up(m.frame.size);
    (start, start + size)
}

/// The mapping's range meets `[start, end)`.
fn overlaps(m: &UserMapping, start: u64, end: u64) -> (r: bool)
    requires
        mapping_ok(*m),
    ensures
        r == spec_overlaps(*m, start as int, end as int),
{
    let (s, e) = mapping_range(m);
    s < end && start < e
}

/// No mapping of `ms` meets `[start, end)`.
fn range_is_free(ms: &MemorySet, start: u64, end: u64) -> (r: bool)
    requires
        forall|i: int| 0 <= i < ms.mappings@.len() ==> mapping_ok(#[trigger] ms.mappings@[i]),
    ensures
        r == spec_range_free(ms.mappings@, start as int, end as int),
{
    let mut i: usize = 0;
    while i < ms.mappings.len()
        invariant
            i <= ms.mappings@.len(),
            forall|j: int| 0 <= j < ms.mappings@.len() ==> mapping_ok(#[trigger] ms.mappings@[j]),
            forall|j: int| 0 <= j < i ==> !spec_overlaps(#[trigger] ms.mappings@[j], start as int, end as int),
        decreases ms.mappings@.len() - i,
    {
        if overlaps(&ms.mappings[i], start, end) {
            return false;
        }
        i = i + 1;
    }
    true
}

proof fn lemma_phys_at_skip(s: Seq<UserMapping>, i: int, va: int)
    requires
        0 <= i < s.len(),
        phys_at(s, va) == phys_at(s.subrange(i, s.len() as int), va),
        !(range_of(s[i]).0 <= va < range_of(s[i]).1),
    ensures
        phys_at(s, va) == phys_at(s.subrange(i + 1, s.len() as int), va),
{
    assert(s.subrange(i, s.len() as int).drop_first() =~= s.subrange(i + 1, s.len() as int));
}

proof fn lemma_flags_at_skip(s: Seq<UserMapping>, i: int, va: int)
    requires
        0 <= i < s.len(),
        flags_at(s, va) == flags_at(s.subrange(i, s.len() as int), va),
        !spec_overlaps(s[i], va, va + 1),
    ensures
        flags_at(s, va) == flags_at(s.subrange(i + 1, s.len() as int), va),
{
    assert(s.subrange(i, s.len() as int).drop_first() =~= s.subrange(i + 1, s.len() as int));
}

/// The physical address of `va` by the first mapping covering it.
fn page_phys(ms: &MemorySet, va: u64) -> (r: Option<u64>)
    requires
        forall|i: int| 0 <= i < ms.mappings@.len() ==> mapping_ok(#[trigger] ms.mappings@[i]),
    ensures
        r == phys_at(ms.mappings@, va as int),
{
    let ghost s = ms.mappings@;
    let mut i: usize = 0;
    assert(s.subrange(0, s.len() as int) =~= s);
    while i < ms.mappings.len()
        invariant
            s == ms.mappings@,
            i <= s.len(),
            forall|j: int| 0 <= j < s.len() ==> mapping_ok(#[trigger] s[j]),
            phys_at(s, va as int) == phys_at(s.subrange(i as int, s.len() as int), va as int),
        decreases s.len() - i,
    {
        let m = &ms.mappings[i];
        let (st, e) = mapping_range(m);
        if va >= st && va < e {
            return Some(m.frame.start + (va - st));
        }
        proof {
            lemma_phys_at_skip(s, i as int, va as int);
        }
        i = i + 1;
    }
    None
}

/// The flags of the first mapping that meets `[va, va + 1)`.
fn flags_of_first(ms: &MemorySet, va: u64) -> (r: Option<PageTableEntryFlags>)
    requires
        forall|i: int| 0 <= i < ms.mappings@.len() ==> mapping_ok(#[trigger] ms.mappings@[i]),
        va < u64::MAX,
    ensures
        r == flags_at(ms.mappings@, va as int),
{
    let ghost s = ms.mappings@;
    let mut i: usize = 0;
    assert(s.subrange(0, s.len() as int) =~= s);
    while i < ms.mappings.len()
        invariant
            s == ms.mappings@,
            i <= s.len(),
            va < u64::MAX,
            forall|j: int| 0 <= j < s.len() ==> mapping_ok(#[trigger] s[j]),
            flags_at(s, va as int) == flags_at(s.subrange(i as int, s.len() as int), va as int),
        decreases s.len() - i,
    {
        if overlaps(&ms.mappings[i], va, va + 1) {
            return Some(ms.mappings[i].flags);
        }
        proof {
            lemma_flags_at_skip(s, i as int, va as int);
        }
        i = i + 1;
    }
    None
}

/// Every page from `start` below `end` is covered by a mapping.
fn range_fully_mapped(ms: &MemorySet, start: u64, end: u64) -> (r: bool)
    requires
        forall|i: int| 0 <= i < ms.mappings@.len() ==> mapping_ok(#[trigger] ms.mappings@[i]),
    ensures
        r == spec_fully_mapped(ms.mappings@, start as int, end as int),
{
    let mut va = start;
    let ghost mut k: int = 0;
    while va < end
        invariant
            forall|i: int| 0 <= i < ms.mappings@.len() ==> mapping_ok(#[trigger] ms.mappings@[i]),
            va == start + k * 4096,
            k >= 0,
            forall|j: int| 0 <= j < k ==> (#[trigger] phys_at(ms.mappings@, start + j * 4096)) is Some,
        decreases u64::MAX - va,
    {
        if page_phys(ms, va).is_none() {
            return false;
        }
        if va > u64::MAX - 4096 {
            proof {
                assert forall|j: int| 0 <= j && start + j * 4096 < end implies
                    (#[trigger] phys_at(ms.mappings@, start + j * 4096)) is Some by {
                    if j > k {
                        assert(start + j * 4096 >= start + (k + 1) * 4096) by (nonlinear_arith)
                            requires j > k;
                    }
                }
            }
            return true;
        }
        va = va + 4096;
        proof {
            k = k + 1;
        }
    }
    proof {
        assert forall|j: int| 0 <= j && start + j * 4096 < end implies
            (#[trigger] phys_at(ms.mappings@, start + j * 4096)) is Some by {
            if j >= k {
                assert(start + j * 4096 >= start + k * 4096) by (nonlinear_arith)
                    requires j >= k;
            }
        }
    }
    true
}

/// `[start, end)` lies in the lower or the upper Sv39 user half.
fn is_canonical_user_range(start: u64, end: u64) -> (r: bool)
    ensures
        r == spec_canonical(start as int, end as int),
{
    end <= LOW_HALF_END || start >= HIGH_HALF_START
}

/// The page-table flags of a mapping with protection `prot`: user,
/// accessed and dirty always; readable for any protection other than
/// none; writable and executable as asked.
fn prot_to_page_flags(prot: u64) -> (r: PageTableEntryFlags)
    ensures
        r.flag(U_BIT) && r.flag(A_BIT) && r.flag(D_BIT),
        r.flag(R_BIT) == (prot & PROT_MASK != 0),
        r.flag(W_BIT) == (prot & PROT_WRITE != 0),
        r.flag(X_BIT) == (prot & PROT_EXEC != 0),
        forall|j: u64| j < 10 && j != R_BIT && j != W_BIT && j != X_BIT && j != U_BIT && j != A_BIT
            && j != D_BIT ==> !#[trigger] r.flag(j),
{
    let mut flags = PageTableEntryFlags::new();
    flags.set_bit(U_BIT, true);
    flags.set_bit(A_BIT, true);
    flags.set_bit(D_BIT, true);
    if prot & PROT_MASK != 0 {
        flags.set_bit(R_BIT, true);
    }
    if prot & PROT_WRITE != 0 {
        flags.set_bit(W_BIT, true);
    }
    if prot & PROT_EXEC != 0 {
        flags.set_bit(X_BIT, true);
    }
    flags
}


/// The ranges of the mappings of `s` that end at or below the user
/// stack, in table order.
pub open spec fn low_ranges(s: Seq<UserMapping>) -> Seq<(u64, u64)>
    decreases s.len(),
{
    if s.len() == 0 {
        Seq::<(u64, u64)>::empty()
    } else {
        let rest = low_ranges(s.drop_last());
        let r = range_of(s.last());
        if r.1 <= USER_STACK_LOWER_BOUND {
            rest.push((r.0 as u64, r.1 as u64))
        } else {
            rest
        }
    }
}

/// Ranges ordered by start address.
pub open spec fn sorted_by_start(p: Seq<(u64, u64)>) -> bool {
    forall|i: int, j: int| 0 <= i < j < p.len() ==> (#[trigger] p[i]).0 <= (#[trigger] p[j]).0
}

/// Walking the sorted ranges from the highest down, starting below `top`:
/// the start of the first gap that holds `length` bytes, ending at the
/// top of that gap.
pub open spec fn scan_down(p: Seq<(u64, u64)>, top: int, length: int) -> Option<u64>
    decreases p.len(),
{
    if p.len() == 0 {
        if top >= length { Some((top - length) as u64) } else { None }
    } else {
        let r = p.last();
        if top > r.1 && top - r.1 >= length {
            Some((top - length) as u64)
        } else {
            scan_down(p.drop_last(), r.0 as int, length)
        }
    }
}

/// The result of the downward scan for every order of equal starts.
pub open spec fn is_free_region_of(s: Seq<UserMapping>, length: u64, r: Option<u64>) -> bool {
    exists|p: Seq<(u64, u64)>| p.to_multiset() == low_ranges(s).to_multiset() && sorted_by_start(p)
        && r == scan_down(p, USER_STACK_LOWER_BOUND as int, length as int)
}

/// Sorts ranges by start address.
fn sort_by_start(v: Vec<(u64, u64)>) -> (r: Vec<(u64, u64)>)
    ensures
        r@.to_multiset() == v@.to_multiset(),
        sorted_by_start(r@),
{
    let mut out: Vec<(u64, u64)> = Vec::new();
    let mut i: usize = 0;
    assert(out@ =~= v@.take(0));
    while i < v.len()
        invariant
            i <= v@.len(),
            out@.to_multiset() == v@.take(i as int).to_multiset(),
            sorted_by_start(out@),
        decreases v@.len() - i,
    {
        let x = v[i];
        let mut p: usize = 0;
        while p < out.len() && out[p].0 <= x.0
            invariant
                p <= out@.len(),
                forall|j: int| 0 <= j < p ==> (#[trigger] out@[j]).0 <= x.0,
            decreases out@.len() - p,
        {
            p = p + 1;
        }
        let ghost o0 = out@;
        out.insert(p, x);
        proof {
            assert(v@.take(i + 1) =~= v@.take(i as int).push(x));
            assert(out@ == o0.insert(p as int, x));
            vstd::seq_lib::to_multiset_insert(o0, p as int, x);
            vstd::seq_lib::to_multiset_build(v@.take(i as int), x);
            assert forall|a: int, b: int| 0 <= a < b < out@.len() implies (#[trigger] out@[a]).0 <= (#[trigger] out@[b]).0 by {
                if b < p {
                } else if b == p {
                    assert(out@[a] == o0[a]);
                } else if a < p {
                    assert(out@[b] == o0[b - 1]);
                    assert(o0[p as int].0 > x.0);
                    assert(o0[a].0 <= x.0);
                } else if a == p {
                    assert(out@[b] == o0[b - 1]);
                    assert(o0[p as int].0 > x.0);
                    assert(o0[p as int].0 <= o0[b - 1].0);
                } else {
                    assert(out@[a] == o0[a - 1] && out@[b] == o0[b - 1]);
                }
            }
        }
        i = i + 1;
    }
    proof {
        assert(v@.take(v@.len() as int) =~= v@);
    }
    out
}

/// Every range of `p` starts no later than it ends, at or below the stack.
pub open spec fn ranges_below(p: Seq<(u64, u64)>) -> bool {
    forall|i: int| 0 <= i < p.len() ==> (#[trigger] p[i]).0 <= p[i].1 <= USER_STACK_LOWER_BOUND
}

proof fn lemma_scan_below(p: Seq<(u64, u64)>, top: int, length: int)
    requires
        ranges_below(p),
        top <= USER_STACK_LOWER_BOUND,
        length >= 0,
    ensures
        scan_down(p, top, length) matches Some(a) ==> a + length <= USER_STACK_LOWER_BOUND,
    decreases p.len(),
{
    if p.len() > 0 {
        assert(p.drop_last().len() == p.len() - 1);
        assert forall|i: int| 0 <= i < p.drop_last().len() implies (#[trigger] p.drop_last()[i]).0 <= p.drop_last()[i].1
            <= USER_STACK_LOWER_BOUND by {
            assert(p.drop_last()[i] == p[i]);
        }
        assert(p.last() == p[p.len() - 1]);
        lemma_scan_below(p.drop_last(), p.last().0 as int, length);
    }
}

/// The start of a free region of `length` bytes below the user stack: the
/// highest gap between the mappings that end below the stack, scanned
/// from the top.
fn find_free_region(ms: &MemorySet, length: u64) -> (r: Option<u64>)
    requires
        forall|i: int| 0 <= i < ms.mappings@.len() ==> mapping_ok(#[trigger] ms.mappings@[i]),
    ensures
        is_free_region_of(ms.mappings@, length, r),
        r matches Some(a) ==> a + length <= USER_STACK_LOWER_BOUND,
{
    broadcast use vstd::seq_lib::to_multiset_contains;
    let ghost s = ms.mappings@;
    let mut ranges: Vec<(u64, u64)> = Vec::new();
    let mut i: usize = 0;
    while i < ms.mappings.len()
        invariant
            s == ms.mappings@,
            i <= s.len(),
            forall|j: int| 0 <= j < s.len() ==> mapping_ok(#[trigger] s[j]),
            ranges@ == low_ranges(s.take(i as int)),
            ranges_below(ranges@),
        decreases s.len() - i,
    {
        let (st, e) = mapping_range(&ms.mappings[i]);
        proof {
            assert(s.take(i + 1).drop_last() =~= s.take(i as int));
            assert(s.take(i + 1).last() == s[i as int]);
        }
        if e <= USER_STACK_LOWER_BOUND {
            ranges.push((st, e));
        }
        i = i + 1;
    }
    proof {
        assert(s.take(s.len() as int) =~= s);
    }
    let sorted = sort_by_start(ranges);
    let ghost p = sorted@;
    proof {
        assert forall|k: int| 0 <= k < p.len() implies (#[trigger] p[k]).0 <= p[k].1 <= USER_STACK_LOWER_BOUND by {
            assert(p.to_multiset().count(p[k]) > 0);
            assert(ranges@.contains(p[k]));
        }
        lemma_scan_below(p, USER_STACK_LOWER_BOUND as int, length as int);
    }
    let mut top: u64 = USER_STACK_LOWER_BOUND;
    let mut n: usize = sorted.len();
    assert(p.take(n as int) =~= p);
    let mut found: Option<u64> = None;
    while n > 0
        invariant_except_break
            found is None,
            scan_down(p, USER_STACK_LOWER_BOUND as int, length as int) == scan_down(p.take(n as int), top as int, length as int),
        invariant
            p == sorted@,
            n <= p.len(),
        ensures
            found is Some ==> found == scan_down(p, USER_STACK_LOWER_BOUND as int, length as int),
            found is None ==> n == 0 && scan_down(p, USER_STACK_LOWER_BOUND as int, length as int)
                == scan_down(p.take(0), top as int, length as int),
        decreases n,
    {
        n = n - 1;
        let (st, e) = sorted[n];
        proof {
            assert(p.take(n + 1).drop_last() =~= p.take(n as int));
            assert(p.take(n + 1).last() == p[n as int]);
        }
        if top > e && top - e >= length {
            found = Some(top - length);
            break;
        }
        top = st;
    }
    let r = match found {
        Some(a) => Some(a),
        None => if top >= length { Some(top - length) } else { None },
    };
    proof {
        assert(sorted_by_start(p) && p.to_multiset() == low_ranges(s).to_multiset()
            && r == scan_down(p, USER_STACK_LOWER_BOUND as int, length as int));
    }
    r
}


/// The mappings of a memory set are well formed, their blocks in use,
/// held by no page table and pairwise different.
pub open spec fn ms_wf(s: Seq<UserMapping>, pt: &PageTableManager, frames: &FrameAllocator) -> bool {
    &&& forall|i: int| 0 <= i < s.len() ==> mapping_ok(#[trigger] s[i]) && frames.used().contains(s[i].frame.start)
        && !pt.holds_page(s[i].frame.start)
    &&& forall|i: int, j: int| 0 <= i < j < s.len() ==> (#[trigger] s[i]).frame.start != (#[trigger] s[j]).frame.start
}

/// No mapping of `s` is backed by the block starting at `a`.
pub open spec fn frame_free_of(s: Seq<UserMapping>, a: u64) -> bool {
    forall|i: int| 0 <= i < s.len() ==> (#[trigger] s[i]).frame.start != a
}

/// `frame` can back a new mapping at `addr`: well formed, in use, held by
/// no page table and by no mapping of `s`.
pub open spec fn frame_ready(s: Seq<UserMapping>, addr: u64, frame: Frame, pt: &PageTableManager, frames: &FrameAllocator) -> bool {
    &&& frame.size % 4096 == 0
    &&& frame.start % 4096 == 0
    &&& page_floor(addr) + frame.size <= u64::MAX
    &&& frame.start + frame.size <= u64::MAX
    &&& frames.used().contains(frame.start)
    &&& !pt.holds_page(frame.start)
    &&& frame_free_of(s, frame.start)
}

/// How a call changed the page tables and the frame allocator: blocks in
/// use stay in use unless they are `except`, and new table frames were not
/// in use before.
pub open spec fn kept_in(pt0: &PageTableManager, f0: &FrameAllocator, pt1: &PageTableManager, f1: &FrameAllocator, except: Set<u64>) -> bool {
    &&& forall|a: u64| #[trigger] f0.used().contains(a) && !except.contains(a) ==> f1.used().contains(a)
    &&& forall|a: u64| #[trigger] pt1.holds_page(a) ==> pt0.holds_page(a) || !f0.used().contains(a) || except.contains(a)
}

proof fn lemma_kept_trans(pt0: &PageTableManager, f0: &FrameAllocator, pt1: &PageTableManager, f1: &FrameAllocator,
    pt2: &PageTableManager, f2: &FrameAllocator, e1: Set<u64>, e2: Set<u64>)
    requires
        kept_in(pt0, f0, pt1, f1, e1),
        kept_in(pt1, f1, pt2, f2, e2),
    ensures
        kept_in(pt0, f0, pt2, f2, e1.union(e2)),
{
    assert forall|a: u64| #[trigger] pt2.holds_page(a) implies pt0.holds_page(a) || !f0.used().contains(a)
        || e1.union(e2).contains(a) by {
        if pt1.holds_page(a) {
        } else if !f1.used().contains(a) {
            if f0.used().contains(a) {
                assert(e1.contains(a));
            }
        }
    }
    assert forall|a: u64| #[trigger] f0.used().contains(a) && !e1.union(e2).contains(a) implies f2.used().contains(a) by {
        assert(f1.used().contains(a));
    }
}

/// A memory set stays well formed when its blocks stay in use and no new
/// table frame was in use before.
proof fn lemma_ms_keep(s: Seq<UserMapping>, pt0: &PageTableManager, f0: &FrameAllocator,
    pt1: &PageTableManager, f1: &FrameAllocator, except: Set<u64>)
    requires
        ms_wf(s, pt0, f0),
        kept_in(pt0, f0, pt1, f1, except),
        forall|i: int| 0 <= i < s.len() ==> !except.contains(#[trigger] s[i].frame.start),
    ensures
        ms_wf(s, pt1, f1),
{
    assert forall|i: int| 0 <= i < s.len() implies mapping_ok(#[trigger] s[i]) && f1.used().contains(s[i].frame.start)
        && !pt1.holds_page(s[i].frame.start) by {
        assert(f0.used().contains(s[i].frame.start));
    }
}

/// Page `k` of a mapping at `addr` translates in `s` to page `k` of
/// `frame` with `flags`.
pub open spec fn page_mapped(s: AddressSpace, addr: u64, frame: Frame, flags: PageTableEntryFlags, k: int) -> bool {
    s.translate((addr + k * 4096) as u64) matches Some(e) && maps_to(e, (frame.start + k * 4096) as u64, flags)
}

/// The tables of `s` form a tree whose loose ends lead only into frames
/// of `used`.
pub open spec fn tree_within(s: AddressSpace, used: Set<u64>) -> bool {
    exists|u: Set<u64>| #[trigger] s.tree_shaped_in(u) && u.subset_of(used)
}

/// The flags allow some access, so the pages are entered in the tables.
pub open spec fn flags_grant(flags: PageTableEntryFlags) -> bool {
    flags.flag(R_BIT) || flags.flag(W_BIT) || flags.flag(X_BIT)
}

/// Distinct pages below `SV39_SPAN` differ in some table index.
proof fn lemma_pages_apart(addr: u64, j: int, k: int)
    requires
        0 <= j < k,
        addr + k * 4096 < SV39_SPAN,
    ensures
        !(spec_vpn2((addr + j * 4096) as u64) == spec_vpn2((addr + k * 4096) as u64)
            && spec_vpn1((addr + j * 4096) as u64) == spec_vpn1((addr + k * 4096) as u64)
            && spec_vpn0((addr + j * 4096) as u64) == spec_vpn0((addr + k * 4096) as u64)),
{
    let v = (addr + j * 4096) as u64;
    let w = (addr + k * 4096) as u64;
    if spec_vpn2(v) == spec_vpn2(w) && spec_vpn1(v) == spec_vpn1(w) && spec_vpn0(v) == spec_vpn0(w) {
        lemma_same_indices(v, w);
        assert(v / 4096 < w / 4096) by (nonlinear_arith)
            requires v + 4096 <= w, v >= 0;
        assert(spec_ppn(v) == v / 4096);
        assert(spec_ppn(w) == w / 4096);
    }
}

/// Maps every page of `frame` at `addr` in `tid`'s page table (when the
/// flags allow any access) and records the mapping.  On a page-table
/// error the pages mapped so far are unmapped again and `frame` is given
/// back.
fn map_frame(
    ms: &mut MemorySet,
    tid: Tid,
    addr: u64,
    frame: Frame,
    flags: PageTableEntryFlags,
    pt: &mut PageTableManager,
    frames: &mut FrameAllocator,
) -> (r: Result<(), ErrorCode>)
    requires
        ms_wf(old(ms).mappings@, old(pt), old(frames)),
        old(pt).wf(old(frames)),
        old(frames).wf(),
        frame_ready(old(ms).mappings@, addr, frame, old(pt), old(frames)),
    ensures
        final(frames).wf(),
        final(pt).wf(final(frames)),
        ms_wf(final(ms).mappings@, final(pt), final(frames)),
        final(ms).user_root_page_table == old(ms).user_root_page_table,
        kept_in(old(pt), old(frames), final(pt), final(frames), set![frame.start]),
        match r {
            Ok(()) => final(ms).mappings@ == old(ms).mappings@.push(UserMapping { va: VirtualAddr(addr), frame, flags })
                && final(frames).used().contains(frame.start),
            Err(e) => final(ms).mappings@ == old(ms).mappings@ && !final(frames).used().contains(frame.start)
                && (e == ErrorCode::ENOMEM || e == ErrorCode::EINVAL),
        },
        final(frames).page_count() + 2 * (frame.size as int / 4096) >= old(frames).page_count(),
        r == Err::<(), ErrorCode>(ErrorCode::ENOMEM) ==> old(frames).page_count() < 2 * (frame.size as int / 4096),
        r == Err::<(), ErrorCode>(ErrorCode::EINVAL) ==> !old(pt).has_space(tid)
            || exists|w: u64| #[trigger] old(pt).user_space(tid).blocked(w),
        r is Ok && flags_grant(flags) && old(pt).has_space(tid) && tree_within(old(pt).user_space(tid), old(frames).used())
            && page_floor(addr) + frame.size <= SV39_SPAN ==> forall|k: int| 0 <= k < frame.size / 4096
                ==> #[trigger] page_mapped(final(pt).user_space(tid), addr, frame, flags, k),
{
    let ghost pt0 = *pt;
    let ghost f0 = *frames;
    let ghost pc0 = frames.page_count();
    let ghost tracked_tree = pt.has_space(tid) && tree_within(pt.user_space(tid), frames.used())
        && page_floor(addr) + frame.size <= SV39_SPAN;
    let ghost fu = choose|u: Set<u64>| #[trigger] pt.user_space(tid).tree_shaped_in(u) && u.subset_of(frames.used());
    let ghost e: Set<u64> = Set::empty();
    proof {
        assert(addr - page_floor(addr) < 4096);
    }
    if flags.r() || flags.w() || flags.x() {
        let mut step: u64 = 0;
        while step < frame.size
            invariant_except_break
                frames.page_count() + 2 * (step as int / 4096) >= pc0,
                step <= frame.size,
                tracked_tree ==> forall|k: int| 0 <= k < step / 4096
                    ==> #[trigger] page_mapped(pt.user_space(tid), addr, frame, flags, k),
            invariant
                tracked_tree == (pt0.has_space(tid) && tree_within(pt0.user_space(tid), f0.used())
                    && page_floor(addr) + frame.size <= SV39_SPAN),
                tracked_tree ==> pt.user_space(tid).tree_shaped_in(fu) && fu.subset_of(frames.used()),
                frames.wf(),
                pt.wf(frames),
                ms_wf(ms.mappings@, pt, frames),
                frame_ready(ms.mappings@, addr, frame, &pt0, &f0),
                addr - page_floor(addr) < 4096,
                frames.used().contains(frame.start),
                !pt.holds_page(frame.start),
                kept_in(&pt0, &f0, pt, frames, e),
                e == Set::<u64>::empty(),
                step % 4096 == 0,
                pt0 == *old(pt),
                f0 == *old(frames),
                ms.mappings@ == old(ms).mappings@,
                ms.user_root_page_table == old(ms).user_root_page_table,
                frame.size % 4096 == 0,
                pc0 == f0.page_count(),
                pt.has_space(tid) == pt0.has_space(tid),
                pt0.has_space(tid) ==> forall|w: u64| !pt0.user_space(tid).blocked(w)
                    ==> !#[trigger] pt.user_space(tid).blocked(w),
            ensures
                frames.page_count() + 2 * (frame.size as int / 4096) >= pc0,
                tracked_tree ==> forall|k: int| 0 <= k < frame.size / 4096
                    ==> #[trigger] page_mapped(pt.user_space(tid), addr, frame, flags, k),
            decreases frame.size - step,
        {
            let ghost pt1 = *pt;
            let ghost f1 = *frames;
            proof {
                assert(step as int / 4096 + 1 <= frame.size as int / 4096) by (nonlinear_arith)
                    requires step % 4096 == 0, frame.size % 4096 == 0, step < frame.size;
            }
            match pt.user_map(tid, VirtualAddr(addr + step), PhysicalAddr(frame.start + step), flags, frames) {
                Ok(()) => {},
                Err(err) => {
                    proof {
                        if pt1.has_space(tid) {
                            assert(pt1.user_space(tid).tables_needed((addr + step) as u64) <= 2);
                            if err == MemError::PageTableMissing {
                                assert(pt0.user_space(tid).blocked((addr + step) as u64));
                            }
                        }
                        lemma_ms_keep(ms.mappings@, &pt1, &f1, pt, frames, e);
                        lemma_kept_trans(&pt0, &f0, &pt1, &f1, pt, frames, e, e);
                        assert(e.union(e) =~= e);
                    }
                    let ghost pt2 = *pt;
                    let mut back: u64 = 0;
                    while back < step
                        invariant
                            frames.wf(),
                            pt.wf(frames),
                            ms_wf(ms.mappings@, pt, frames),
                            frames.used().contains(frame.start),
                            !pt.holds_page(frame.start),
                            forall|a: u64| #[trigger] pt.holds_page(a) ==> pt2.holds_page(a),
                            back <= step,
                            back % 4096 == 0,
                            step % 4096 == 0,
                            step < frame.size,
                            page_floor(addr) + frame.size <= u64::MAX,
                            addr - page_floor(addr) < 4096,
                            e == Set::<u64>::empty(),
                            pt0 == *old(pt),
                            f0 == *old(frames),
                            ms.mappings@ == old(ms).mappings@,
                            ms.user_root_page_table == old(ms).user_root_page_table,
                        decreases step - back,
                    {
                        let ghost pt3 = *pt;
                        let _ = pt.user_unmap(tid, VirtualAddr(addr + back), frames);
                        proof {
                            assert forall|a: u64| #[trigger] pt.holds_page(a) implies pt2.holds_page(a) by {
                                assert(pt3.holds_page(a));
                            }
                            lemma_ms_keep(ms.mappings@, &pt3, frames, pt, frames, e);
                        }
                        back = back + 4096;
                    }
                    proof {
                        assert(kept_in(&pt2, frames, pt, frames, e));
                        lemma_kept_trans(&pt0, &f0, &pt2, frames, pt, frames, e, e);
                    }
                    let ghost f3 = *frames;
                    let ghost pt4 = *pt;
                    frames.dealloc_frame(frame);
                    proof {
                        assert forall|a: u64| #[trigger] pt.holds_page(a) implies frames.used().contains(a) by {
                            pt.lemma_holds_used(&f3, a);
                        }
                        pt.lemma_wf_keep(&f3, frames);
                        assert(kept_in(&pt4, &f3, pt, frames, set![frame.start]));
                        lemma_ms_keep(ms.mappings@, &pt4, &f3, pt, frames, set![frame.start]);
                        lemma_kept_trans(&pt0, &f0, &pt4, &f3, pt, frames, e.union(e), set![frame.start]);
                        assert(e.union(e).union(set![frame.start]) =~= set![frame.start]);
                        assert(kept_in(&pt0, &f0, pt, frames, set![frame.start]));
                    }
                    return Err(mem_errno(err));
                },
            }
            proof {
                assert(!pt.holds_page(frame.start)) by {
                    if pt.holds_page(frame.start) {
                        assert(pt1.holds_page(frame.start) || !f1.used().contains(frame.start));
                    }
                }
                lemma_ms_keep(ms.mappings@, &pt1, &f1, pt, frames, e);
                lemma_kept_trans(&pt0, &f0, &pt1, &f1, pt, frames, e, e);
                assert(e.union(e) =~= e);
            }
            proof {
                assert(pt1.user_space(tid).tables_needed((addr + step) as u64) <= 2);
                if tracked_tree {
                    let ks = pt.user_space(tid);
                    let n: int = step as int / 4096;
                    assert(step == n * 4096);
                    assert(page_mapped(ks, addr, frame, flags, n));
                    assert forall|k: int| 0 <= k <= n implies #[trigger] page_mapped(ks, addr, frame, flags, k) by {
                        if k < n {
                            assert(page_mapped(pt1.user_space(tid), addr, frame, flags, k));
                            lemma_pages_apart(addr, k, n);
                            if ks.same_leaf((addr + step) as u64, (addr + k * 4096) as u64) {
                                AddressSpace::lemma_tree_leaf(ks, (addr + step) as u64, (addr + k * 4096) as u64, fu);
                            }
                        }
                    }
                }
            }
            if frame.size - step <= 4096 {
                break;
            }
            step = step + 4096;
        }
    }
    let m = UserMapping { va: VirtualAddr(addr), frame, flags };
    let ghost s0 = ms.mappings@;
    ms.mappings.push(m);
    proof {
        assert forall|i: int, j: int| 0 <= i < j < ms.mappings@.len() implies
            (#[trigger] ms.mappings@[i]).frame.start != (#[trigger] ms.mappings@[j]).frame.start by {
            if j == s0.len() {
                assert(s0[i].frame.start != frame.start);
            } else {
                assert(ms.mappings@[i] == s0[i] && ms.mappings@[j] == s0[j]);
            }
        }
        assert forall|i: int| 0 <= i < ms.mappings@.len() implies mapping_ok(#[trigger] ms.mappings@[i])
            && frames.used().contains(ms.mappings@[i].frame.start) && !pt.holds_page(ms.mappings@[i].frame.start) by {
            if i < s0.len() {
                assert(ms.mappings@[i] == s0[i]);
            }
        }
        assert(kept_in(&pt0, &f0, pt, frames, set![frame.start]));
    }
    Ok(())
}


/// A change of physical memory contents that the caller carries out, in
/// order, after the call: the memory maps decide what to zero and copy,
/// the caller owns the bytes.
#[derive(Clone, Copy, Debug, PartialEq, Eq, Structural)]
pub enum MemOp {
    /// Sets `len` bytes from physical address `at` to zero.
    Zero { at: u64, len: u64 },
    /// Copies `len` bytes from physical address `from` to `to`.
    Copy { from: u64, to: u64, len: u64 },
}

/// The copies that carry the contents of the pieces `ks` over to the
/// blocks of the mappings of `t` from index `base` on.
pub open spec fn piece_copies(ks: Seq<Keep>, t: Seq<UserMapping>, base: int) -> Seq<MemOp> {
    Seq::new(ks.len(), |k: int| MemOp::Copy { from: ks[k].pa, to: t[base + k].frame.start, len: ks[k].size })
}

/// A piece of a partly unmapped mapping that stays mapped: its virtual
/// start, the physical address of its contents, its size and flags.
#[derive(Clone, Copy, Debug, PartialEq, Eq, Structural)]
pub struct Keep {
    pub va: u64,
    pub pa: u64,
    pub size: u64,
    pub flags: PageTableEntryFlags,
}

/// The pieces of `m` outside `[start, end)` when the two meet: the part
/// below `start` and the part from `end` on.
pub open spec fn keeps_of_mapping(m: UserMapping, start: int, end: int) -> Seq<Keep> {
    if !spec_overlaps(m, start, end) {
        Seq::<Keep>::empty()
    } else {
        let s = range_of(m).0;
        let e = range_of(m).1;
        let os = if s < start { start } else { s };
        let oe = if e < end { e } else { end };
        let left = if s < os {
            seq![Keep { va: s as u64, pa: m.frame.start, size: (os - s) as u64, flags: m.flags }]
        } else {
            Seq::<Keep>::empty()
        };
        let right = if oe < e {
            seq![Keep { va: oe as u64, pa: (m.frame.start + (oe - s)) as u64, size: (e - oe) as u64, flags: m.flags }]
        } else {
            Seq::<Keep>::empty()
        };
        left + right
    }
}

/// The pieces kept when `[start, end)` is unmapped from `s`, in order.
pub open spec fn keeps_of(s: Seq<UserMapping>, start: int, end: int) -> Seq<Keep>
    decreases s.len(),
{
    if s.len() == 0 {
        Seq::<Keep>::empty()
    } else {
        keeps_of_mapping(s[0], start, end) + keeps_of(s.drop_first(), start, end)
    }
}

/// The mappings of `s` that do not meet `[start, end)`, in order.
pub open spec fn untouched(s: Seq<UserMapping>, start: int, end: int) -> Seq<UserMapping>
    decreases s.len(),
{
    if s.len() == 0 {
        Seq::<UserMapping>::empty()
    } else if spec_overlaps(s[0], start, end) {
        untouched(s.drop_first(), start, end)
    } else {
        seq![s[0]] + untouched(s.drop_first(), start, end)
    }
}

/// `t` is `s` after unmapping `[start, end)`: the untouched mappings,
/// then each kept piece at its old address with its old flags, on a fresh
/// block of the piece's size (blocks not in use in `before`).
pub open spec fn unmapped_as(s: Seq<UserMapping>, t: Seq<UserMapping>, start: int, end: int, before: Set<u64>) -> bool {
    let u = untouched(s, start, end);
    let ks = keeps_of(s, start, end);
    &&& t.len() == u.len() + ks.len()
    &&& forall|i: int| 0 <= i < u.len() ==> #[trigger] t[i] == u[i]
    &&& forall|k: int| 0 <= k < ks.len() ==> {
        let m = #[trigger] t[u.len() + k];
        &&& m.va.0 == ks[k].va
        &&& m.flags == ks[k].flags
        &&& spec_block_size(ks[k].size as nat, m.frame.size as nat)
        &&& !before.contains(m.frame.start)
    }
}

/// Every untouched mapping is a mapping of `s` that does not meet the range.
proof fn lemma_untouched_in(s: Seq<UserMapping>, start: int, end: int)
    ensures
        forall|i: int| 0 <= i < untouched(s, start, end).len() ==> exists|j: int| 0 <= j < s.len()
            && s[j] == #[trigger] untouched(s, start, end)[i] && !spec_overlaps(s[j], start, end),
    decreases s.len(),
{
    if s.len() > 0 {
        lemma_untouched_in(s.drop_first(), start, end);
        let u = untouched(s, start, end);
        let u1 = untouched(s.drop_first(), start, end);
        assert forall|i: int| 0 <= i < u.len() implies exists|j: int| 0 <= j < s.len()
            && s[j] == #[trigger] u[i] && !spec_overlaps(s[j], start, end) by {
            if spec_overlaps(s[0], start, end) {
                let j = choose|j: int| 0 <= j < s.drop_first().len() && s.drop_first()[j] == u1[i]
                    && !spec_overlaps(s.drop_first()[j], start, end);
                assert(s[j + 1] == u[i]);
            } else if i == 0 {
                assert(s[0] == u[0]);
            } else {
                assert(u[i] == u1[i - 1]);
                let j = choose|j: int| 0 <= j < s.drop_first().len() && s.drop_first()[j] == u1[i - 1]
                    && !spec_overlaps(s.drop_first()[j], start, end);
                assert(s[j + 1] == u[i]);
            }
        }
    }
}

proof fn lemma_keeps_step(s: Seq<UserMapping>, i: int, start: int, end: int)
    requires
        0 <= i < s.len(),
    ensures
        keeps_of(s.skip(i), start, end) == keeps_of_mapping(s[i], start, end) + keeps_of(s.skip(i + 1), start, end),
        untouched(s.skip(i), start, end) == (if spec_overlaps(s[i], start, end) { untouched(s.skip(i + 1), start, end) }
            else { seq![s[i]] + untouched(s.skip(i + 1), start, end) }),
{
    assert(s.skip(i).drop_first() =~= s.skip(i + 1));
    assert(s.skip(i)[0] == s[i]);
}

proof fn lemma_keeps_concat(a: Seq<UserMapping>, b: Seq<UserMapping>, start: int, end: int)
    ensures
        keeps_of(a + b, start, end) == keeps_of(a, start, end) + keeps_of(b, start, end),
    decreases a.len(),
{
    if a.len() == 0 {
        assert(a + b =~= b);
        assert(keeps_of(a, start, end) + keeps_of(b, start, end) =~= keeps_of(b, start, end));
    } else {
        lemma_keeps_concat(a.drop_first(), b, start, end);
        assert((a + b).drop_first() =~= a.drop_first() + b);
        assert((a + b)[0] == a[0]);
        assert(keeps_of(a + b, start, end) =~= keeps_of(a, start, end) + keeps_of(b, start, end));
    }
}

/// The pieces kept of mapping `s[i]` sit in `keeps_of(s, ..)` right after
/// those of the mappings before it.
proof fn lemma_keeps_at(s: Seq<UserMapping>, i: int, start: int, end: int)
    requires
        0 <= i < s.len(),
    ensures
        keeps_of(s, start, end) == keeps_of(s.take(i), start, end) + keeps_of_mapping(s[i], start, end)
            + keeps_of(s.skip(i + 1), start, end),
{
    assert(s =~= s.take(i) + s.skip(i));
    lemma_keeps_concat(s.take(i), s.skip(i), start, end);
    lemma_keeps_step(s, i, start, end);
    assert(keeps_of(s, start, end) =~= keeps_of(s.take(i), start, end) + keeps_of_mapping(s[i], start, end)
        + keeps_of(s.skip(i + 1), start, end));
}

proof fn lemma_untouched_has(s: Seq<UserMapping>, start: int, end: int, i: int)
    requires
        0 <= i < s.len(),
        !spec_overlaps(s[i], start, end),
    ensures
        exists|j: int| 0 <= j < untouched(s, start, end).len() && #[trigger] untouched(s, start, end)[j] == s[i],
    decreases s.len(),
{
    let u = untouched(s, start, end);
    if i == 0 {
        assert(u[0] == s[0]);
    } else {
        assert(s.drop_first()[i - 1] == s[i]);
        lemma_untouched_has(s.drop_first(), start, end, i - 1);
        let u1 = untouched(s.drop_first(), start, end);
        let j = choose|j: int| 0 <= j < u1.len() && #[trigger] u1[j] == s[i];
        if spec_overlaps(s[0], start, end) {
            assert(u[j] == s[i]);
        } else {
            assert(u[j + 1] == s[i]);
        }
    }
}

/// Unmapping `[start, end)` leaves every mapping that does not meet the
/// range in place, unchanged.
pub proof fn lemma_unmap_keeps_untouched(s: Seq<UserMapping>, t: Seq<UserMapping>, start: int, end: int,
    before: Set<u64>, i: int)
    requires
        unmapped_as(s, t, start, end, before),
        0 <= i < s.len(),
        !spec_overlaps(s[i], start, end),
    ensures
        exists|j: int| 0 <= j < t.len() && #[trigger] t[j] == s[i],
{
    lemma_untouched_has(s, start, end, i);
    let u = untouched(s, start, end);
    let j = choose|j: int| 0 <= j < u.len() && #[trigger] u[j] == s[i];
    assert(t[j] == u[j]);
}

/// An address inside the range of some mapping of `t` has a physical
/// address in `t`.
pub proof fn lemma_phys_some(t: Seq<UserMapping>, j: int, va: int)
    requires
        0 <= j < t.len(),
        range_of(t[j]).0 <= va < range_of(t[j]).1,
    ensures
        phys_at(t, va) is Some,
    decreases j,
{
    if j > 0 && !(range_of(t[0]).0 <= va < range_of(t[0]).1) {
        assert(t.drop_first()[j - 1] == t[j]);
        lemma_phys_some(t.drop_first(), j - 1, va);
    }
}

/// Unmapping the page-aligned range `[start, end)` keeps every page of a
/// mapping it cuts that lies outside the range: the page is still mapped
/// in `t`, by a kept piece that starts at the same address offset and is
/// filled by a copy of the old contents, so the page holds the bytes it
/// held before.
pub proof fn lemma_unmap_keeps_outside(s: Seq<UserMapping>, t: Seq<UserMapping>, start: int, end: int,
    before: Set<u64>, i: int, va: int)
    requires
        unmapped_as(s, t, start, end, before),
        start % 4096 == 0,
        end % 4096 == 0,
        start < end,
        0 <= i < s.len(),
        mapping_ok(s[i]),
        spec_overlaps(s[i], start, end),
        range_of(s[i]).0 <= va < range_of(s[i]).1,
        va < start || end <= va,
    ensures
        phys_at(t, va) is Some,
        exists|k: int| #![trigger t[untouched(s, start, end).len() + k]] 0 <= k < keeps_of(s, start, end).len() && {
            let ks = keeps_of(s, start, end);
            let u = untouched(s, start, end);
            let m = t[u.len() + k];
            &&& range_of(m).0 <= va < range_of(m).0 + ks[k].size
            &&& range_of(m).0 + ks[k].size <= range_of(m).1
            &&& ks[k].pa + (va - range_of(m).0) == s[i].frame.start + (va - range_of(s[i]).0)
            &&& m.flags == s[i].flags
            &&& piece_copies(ks, t, u.len() as int)[k] == (MemOp::Copy { from: ks[k].pa, to: m.frame.start, len: ks[k].size })
        },
{
    let m0 = s[i];
    let ks = keeps_of(s, start, end);
    let u = untouched(s, start, end);
    let r0 = range_of(m0).0;
    let e = range_of(m0).1;
    let f = m0.frame.size as int;
    lemma_floor(m0.va.0);
    assert(page_ceil(f) == f) by (nonlinear_arith)
        requires f % 4096 == 0, f >= 0, page_ceil(f) == ((f + 4095) / 4096) * 4096;
    lemma_keeps_at(s, i, start, end);
    let pre: int = keeps_of(s.take(i), start, end).len() as int;
    let km = keeps_of_mapping(m0, start, end);
    let os = if r0 < start { start } else { r0 };
    let oe = if e < end { e } else { end };
    let left_len: int = if r0 < os { 1 } else { 0 };
    let k: int = if va < start { pre } else { pre + left_len };
    if va < start {
        assert(km[0] == Keep { va: r0 as u64, pa: m0.frame.start, size: (os - r0) as u64, flags: m0.flags });
    } else {
        assert(oe == end);
        assert(km[left_len] == Keep { va: oe as u64, pa: (m0.frame.start + (oe - r0)) as u64, size: (e - oe) as u64,
            flags: m0.flags });
    }
    assert(ks[k] == km[k - pre]);
    let m = t[u.len() + k];
    let g = m.frame.size as int;
    lemma_floor(m.va.0);
    assert(page_ceil(g) >= g) by (nonlinear_arith)
        requires g >= 0, page_ceil(g) == ((g + 4095) / 4096) * 4096;
    assert(range_of(m).0 == m.va.0);
    lemma_phys_some(t, u.len() + k, va);
    assert(piece_copies(ks, t, u.len() as int)[k] == (MemOp::Copy { from: ks[k].pa, to: m.frame.start, len: ks[k].size }));
}

/// Every kept piece is page-sized data inside the block it comes from.
proof fn lemma_keeps_ok(m: UserMapping, start: int, end: int)
    requires
        mapping_ok(m),
        start % 4096 == 0,
        start <= end,
    ensures
        forall|k: int| 0 <= k < keeps_of_mapping(m, start, end).len() ==> {
            let kp = #[trigger] keeps_of_mapping(m, start, end)[k];
            &&& kp.size > 0
            &&& kp.va + kp.size <= range_of(m).1
            &&& kp.va >= range_of(m).0
        },
{
    lemma_floor(m.va.0);
}


/// Blocks of the mappings of `s`.
pub open spec fn frames_of(s: Seq<UserMapping>) -> Set<u64> {
    Set::new(|a: u64| exists|i: int| 0 <= i < s.len() && (#[trigger] s[i]).frame.start == a)
}

/// Every mapping of `t` keeps a block of `s` or has a block that was not
/// in use in `before`.
pub open spec fn blocks_from(s: Seq<UserMapping>, t: Seq<UserMapping>, before: Set<u64>) -> bool {
    forall|i: int| 0 <= i < t.len() ==> frames_of(s).contains(#[trigger] t[i].frame.start)
        || !before.contains(t[i].frame.start)
}

/// Blocks of the mappings of `s` that meet `[start, end)`.
pub open spec fn overlap_frames(s: Seq<UserMapping>, start: int, end: int) -> Set<u64> {
    Set::new(|a: u64| exists|i: int| 0 <= i < s.len() && spec_overlaps(s[i], start, end) && (#[trigger] s[i]).frame.start == a)
}

/// Blocks waiting to back new mappings: in use, fresh since `before`,
/// held by no page table, pairwise different, each fitting its piece.
pub open spec fn pending_ok(v: Seq<Frame>, from: int, pt: &PageTableManager, frames: &FrameAllocator, before: Set<u64>) -> bool {
    &&& forall|b: int| from <= b < v.len() ==> frames.used().contains(#[trigger] v[b].start) && !pt.holds_page(v[b].start)
        && !before.contains(v[b].start)
    &&& forall|b: int, c: int| from <= b < c < v.len() ==> (#[trigger] v[b]).start != (#[trigger] v[c]).start
}

/// Gives back the blocks `v[from..]`.
pub(crate) fn give_back(v: &Vec<Frame>, from: usize, pt: &PageTableManager, frames: &mut FrameAllocator, Ghost(s): Ghost<Seq<UserMapping>>, Ghost(before): Ghost<Set<u64>>)
    requires
        old(frames).wf(),
        pt.wf(old(frames)),
        ms_wf(s, pt, old(frames)),
        from <= v@.len(),
        pending_ok(v@, from as int, pt, old(frames), before),
        forall|i: int| 0 <= i < s.len() ==> before.contains(#[trigger] s[i].frame.start),
        forall|b: int| from <= b < v@.len() ==> (#[trigger] v@[b]).start % FRAME_SIZE == 0,
    ensures
        final(frames).wf(),
        pt.wf(final(frames)),
        ms_wf(s, pt, final(frames)),
        forall|a: u64| #[trigger] old(frames).used().contains(a) && !before.contains(a)
            && !(exists|b: int| from <= b < v@.len() && (#[trigger] v@[b]).start == a) ==> final(frames).used().contains(a),
        forall|a: u64| #[trigger] old(frames).used().contains(a) && before.contains(a) ==> final(frames).used().contains(a),
        forall|b: int| from <= b < v@.len() ==> !final(frames).used().contains(#[trigger] v@[b].start),
        forall|a: u64| #[trigger] final(frames).used().contains(a) ==> old(frames).used().contains(a),
{
    let mut k: usize = from;
    while k < v.len()
        invariant
            from <= k <= v@.len(),
            frames.wf(),
            pt.wf(frames),
            ms_wf(s, pt, frames),
            pending_ok(v@, k as int, pt, frames, before),
            pending_ok(v@, from as int, pt, old(frames), before),
            forall|i: int| 0 <= i < s.len() ==> before.contains(#[trigger] s[i].frame.start),
            forall|b: int| from <= b < v@.len() ==> (#[trigger] v@[b]).start % FRAME_SIZE == 0,
            forall|a: u64| #[trigger] old(frames).used().contains(a) && !before.contains(a)
                && !(exists|b: int| from <= b < k && (#[trigger] v@[b]).start == a) ==> frames.used().contains(a),
            forall|a: u64| #[trigger] old(frames).used().contains(a) && before.contains(a) ==> frames.used().contains(a),
            forall|b: int| from <= b < k ==> !frames.used().contains(#[trigger] v@[b].start),
            forall|a: u64| #[trigger] frames.used().contains(a) ==> old(frames).used().contains(a),
        decreases v@.len() - k,
    {
        let f = v[k];
        let ghost f0 = *frames;
        frames.dealloc_frame(f);
        proof {
            assert forall|a: u64| #[trigger] pt.holds_page(a) implies frames.used().contains(a) by {
                pt.lemma_holds_used(&f0, a);
            }
            pt.lemma_wf_keep(&f0, frames);
            assert forall|i: int| 0 <= i < s.len() implies mapping_ok(#[trigger] s[i]) && frames.used().contains(s[i].frame.start)
                && !pt.holds_page(s[i].frame.start) by {
                assert(before.contains(s[i].frame.start));
            }
            assert forall|b: int| k < b < v@.len() implies frames.used().contains(#[trigger] v@[b].start) by {
                assert(v@[b].start != v@[k as int].start);
            }
            assert forall|a: u64| #[trigger] old(frames).used().contains(a) && !before.contains(a)
                && !(exists|b: int| from <= b < k + 1 && (#[trigger] v@[b]).start == a) implies frames.used().contains(a) by {
                assert(a != v@[k as int].start);
            }
            assert forall|b: int| from <= b < k + 1 implies !frames.used().contains(#[trigger] v@[b].start) by {
                if b < k {
                    assert(!f0.used().contains(v@[b].start));
                }
            }
        }
        k = k + 1;
    }
}



/// The pieces to keep when `[start, end)` is unmapped.
fn collect_keeps(ms: &MemorySet, start: u64, end: u64) -> (r: Vec<Keep>)
    requires
        forall|i: int| 0 <= i < ms.mappings@.len() ==> mapping_ok(#[trigger] ms.mappings@[i]),
    ensures
        r@ == keeps_of(ms.mappings@, start as int, end as int),
{
    let ghost s = ms.mappings@;
    let mut keeps: Vec<Keep> = Vec::new();
    let mut i: usize = 0;
    assert(s.skip(0) =~= s);
    while i < ms.mappings.len()
        invariant
            s == ms.mappings@,
            i <= s.len(),
            forall|i: int| 0 <= i < s.len() ==> mapping_ok(#[trigger] s[i]),
            keeps@ + keeps_of(s.skip(i as int), start as int, end as int) == keeps_of(s, start as int, end as int),
        decreases s.len() - i,
    {
        proof {
            lemma_keeps_step(s, i as int, start as int, end as int);
        }
        let m = &ms.mappings[i];
        let ghost k0 = keeps@;
        if overlaps(m, start, end) {
            let (ms_start, ms_end) = mapping_range(m);
            let os = if ms_start < start { start } else { ms_start };
            let oe = if ms_end < end { ms_end } else { end };
            if ms_start < os {
                keeps.push(Keep { va: ms_start, pa: m.frame.start, size: os - ms_start, flags: m.flags });
            }
            if oe < ms_end {
                keeps.push(Keep { va: oe, pa: m.frame.start + (oe - ms_start), size: ms_end - oe, flags: m.flags });
            }
        }
        proof {
            assert(keeps@ =~= k0 + keeps_of_mapping(s[i as int], start as int, end as int));
            assert(keeps@ + keeps_of(s.skip(i + 1), start as int, end as int) =~= k0 + keeps_of(s.skip(i as int), start as int, end as int));
        }
        i = i + 1;
    }
    proof {
        assert(s.skip(s.len() as int) =~= Seq::<UserMapping>::empty());
        assert(keeps@ =~= keeps_of(s, start as int, end as int));
    }
    keeps
}

/// Block `f` can back the piece `k`.
pub open spec fn fits_piece(k: Keep, f: Frame) -> bool {
    &&& spec_block_size(k.size as nat, f.size as nat)
    &&& f.start % FRAME_SIZE == 0
    &&& f.size % 4096 == 0
    &&& f.start + f.size <= u64::MAX
    &&& page_floor(k.va) + f.size <= u64::MAX
}

/// A fresh block for every piece, or none at all (`None` when one cannot
/// be had; those taken before are given back).
fn take_blocks(keeps: &Vec<Keep>, pt: &PageTableManager, frames: &mut FrameAllocator, Ghost(s): Ghost<Seq<UserMapping>>)
    -> (r: Option<Vec<Frame>>)
    requires
        old(frames).wf(),
        pt.wf(old(frames)),
        ms_wf(s, pt, old(frames)),
    ensures
        final(frames).wf(),
        pt.wf(final(frames)),
        ms_wf(s, pt, final(frames)),
        forall|a: u64| #[trigger] old(frames).used().contains(a) ==> final(frames).used().contains(a),
        match r {
            Some(v) => {
                &&& v@.len() == keeps@.len()
                &&& pending_ok(v@, 0, pt, final(frames), old(frames).used())
                &&& forall|b: int| 0 <= b < v@.len() ==> fits_piece(keeps@[b], #[trigger] v@[b])
            },
            None => forall|a: u64| #[trigger] final(frames).used().contains(a) ==> old(frames).used().contains(a),
        },
        keeps@.len() == 0 ==> r is Some && *final(frames) == *old(frames),
{
    let ghost before = old(frames).used();
    let mut bufs: Vec<Frame> = Vec::new();
    let mut j: usize = 0;
    while j < keeps.len()
        invariant
            j <= keeps@.len(),
            j == 0 ==> *frames == *old(frames),
            bufs@.len() == j,
            frames.wf(),
            pt.wf(frames),
            ms_wf(s, pt, frames),
            pending_ok(bufs@, 0, pt, frames, before),
            before == old(frames).used(),
            forall|a: u64| #[trigger] before.contains(a) ==> frames.used().contains(a),
            forall|a: u64| #[trigger] frames.used().contains(a) ==> before.contains(a)
                || exists|b: int| 0 <= b < bufs@.len() && (#[trigger] bufs@[b]).start == a,
            forall|i: int| 0 <= i < s.len() ==> before.contains(#[trigger] s[i].frame.start),
            forall|b: int| 0 <= b < j ==> fits_piece(keeps@[b], #[trigger] bufs@[b]),
        decreases keeps@.len() - j,
    {
        let k = keeps[j];
        let ghost f1 = *frames;
        match alloc_frame(Some(k.size), frames) {
            None => {
                proof {
                    assert forall|a: u64| #[trigger] pt.holds_page(a) implies frames.used().contains(a) by {
                        pt.lemma_holds_used(&f1, a);
                    }
                    pt.lemma_wf_keep(&f1, frames);
                }
                give_back(&bufs, 0, pt, frames, Ghost(s), Ghost(before));
                return None;
            },
            Some(f) => {
                proof {
                    lemma_floor(k.va);
                    assert(!pt.holds_page(f.start)) by {
                        if pt.holds_page(f.start) {
                            pt.lemma_holds_used(&f1, f.start);
                        }
                    }
                    assert forall|a: u64| #[trigger] pt.holds_page(a) implies frames.used().contains(a) by {
                        pt.lemma_holds_used(&f1, a);
                    }
                    pt.lemma_wf_keep(&f1, frames);
                    assert forall|i: int| 0 <= i < s.len() implies mapping_ok(#[trigger] s[i])
                        && frames.used().contains(s[i].frame.start) && !pt.holds_page(s[i].frame.start) by {
                        assert(before.contains(s[i].frame.start));
                    }
                }
                let fl = k.va & !0xfffu64;
                if fl > u64::MAX - f.size {
                    // A block reaching past the top of the address space
                    // cannot back the piece.
                    let ghost f2 = *frames;
                    frames.dealloc_frame(f);
                    proof {
                        assert forall|a: u64| #[trigger] pt.holds_page(a) implies frames.used().contains(a) by {
                            pt.lemma_holds_used(&f2, a);
                        }
                        pt.lemma_wf_keep(&f2, frames);
                        assert forall|i: int| 0 <= i < s.len() implies mapping_ok(#[trigger] s[i])
                            && frames.used().contains(s[i].frame.start) && !pt.holds_page(s[i].frame.start) by {
                            assert(before.contains(s[i].frame.start));
                        }
                        assert forall|b: int| 0 <= b < bufs@.len() implies frames.used().contains(#[trigger] bufs@[b].start)
                            && !pt.holds_page(bufs@[b].start) && !before.contains(bufs@[b].start) by {
                            assert(f1.used().contains(bufs@[b].start));
                        }
                    }
                    let ghost f3 = *frames;
                    proof {
                        assert forall|a: u64| #[trigger] before.contains(a) implies f3.used().contains(a) by {
                            assert(f1.used().contains(a));
                            assert(a != f.start);
                        }
                    }
                    give_back(&bufs, 0, pt, frames, Ghost(s), Ghost(before));
                    proof {
                        assert forall|a: u64| #[trigger] before.contains(a) implies frames.used().contains(a) by {
                            assert(f3.used().contains(a));
                        }
                        assert forall|a: u64| #[trigger] frames.used().contains(a) implies before.contains(a) by {
                            assert(f3.used().contains(a));
                            if !before.contains(a) {
                                assert(f2.used().contains(a));
                                if a != f.start {
                                    assert(f1.used().contains(a));
                                    let b = choose|b: int| 0 <= b < bufs@.len() && (#[trigger] bufs@[b]).start == a;
                                }
                            }
                        }
                    }
                    return None;
                }
                let ghost b0 = bufs@;
                bufs.push(f);
                proof {
                    assert forall|b: int| 0 <= b < bufs@.len() implies frames.used().contains(#[trigger] bufs@[b].start)
                        && !pt.holds_page(bufs@[b].start) && !before.contains(bufs@[b].start) by {
                        if b < b0.len() {
                            assert(bufs@[b] == b0[b]);
                        }
                    }
                    assert forall|b: int, c: int| 0 <= b < c < bufs@.len() implies (#[trigger] bufs@[b]).start != (#[trigger] bufs@[c]).start by {
                        if c == b0.len() {
                            assert(f1.used().contains(b0[b].start));
                        } else {
                            assert(bufs@[b] == b0[b] && bufs@[c] == b0[c]);
                        }
                    }
                    assert forall|b: int| 0 <= b < j + 1 implies fits_piece(keeps@[b], #[trigger] bufs@[b]) by {
                        if b < j {
                            assert(bufs@[b] == b0[b]);
                        }
                    }
                    assert forall|a: u64| #[trigger] frames.used().contains(a) implies before.contains(a)
                        || exists|b: int| 0 <= b < bufs@.len() && (#[trigger] bufs@[b]).start == a by {
                        if a == f.start {
                            assert(bufs@[j as int].start == a);
                        } else if !before.contains(a) {
                            assert(f1.used().contains(a));
                            let b = choose|b: int| 0 <= b < b0.len() && (#[trigger] b0[b]).start == a;
                            assert(bufs@[b] == b0[b]);
                        }
                    }
                }
            },
        }
        j = j + 1;
    }
    Some(bufs)
}


/// No page of the mapping `m` translates in `sp`.
pub open spec fn pages_unmapped(sp: AddressSpace, m: UserMapping) -> bool {
    forall|k: int| 0 <= k && range_of(m).0 + k * 4096 < range_of(m).1
        ==> #[trigger] sp.translate((range_of(m).0 + k * 4096) as u64) == None::<PageTableEntry>
}

/// `tid` has an address space in `pt1` exactly when it has one in `pt0`,
/// and no walk blocked in `pt1` was unblocked in `pt0`.
pub open spec fn unblocked_kept(pt0: &PageTableManager, pt1: &PageTableManager, tid: Tid) -> bool {
    &&& pt1.has_space(tid) == pt0.has_space(tid)
    &&& pt0.has_space(tid) ==> forall|w: u64| !pt0.user_space(tid).blocked(w) ==> !#[trigger] pt1.user_space(tid).blocked(w)
}

proof fn lemma_unblocked_trans(pt0: &PageTableManager, pt1: &PageTableManager, pt2: &PageTableManager, tid: Tid)
    requires
        unblocked_kept(pt0, pt1, tid),
        unblocked_kept(pt1, pt2, tid),
    ensures
        unblocked_kept(pt0, pt2, tid),
{
    if pt0.has_space(tid) {
        assert forall|w: u64| !pt0.user_space(tid).blocked(w) implies !#[trigger] pt2.user_space(tid).blocked(w) by {
            assert(!pt1.user_space(tid).blocked(w));
        }
    }
}

/// Removes the mappings that meet `[start, end)`, unmapping their pages
/// and giving their blocks back.
#[verifier::spinoff_prover]
fn remove_overlapping(
    ms: &mut MemorySet,
    tid: Tid,
    start: u64,
    end: u64,
    pt: &mut PageTableManager,
    frames: &mut FrameAllocator,
    Ghost(bs): Ghost<Seq<Frame>>,
    Ghost(before): Ghost<Set<u64>>,
)
    requires
        ms_wf(old(ms).mappings@, old(pt), old(frames)),
        old(pt).wf(old(frames)),
        old(frames).wf(),
        pending_ok(bs, 0, old(pt), old(frames), before),
        forall|i: int| 0 <= i < old(ms).mappings@.len() ==> before.contains(#[trigger] old(ms).mappings@[i].frame.start),
    ensures
        final(ms).mappings@ == untouched(old(ms).mappings@, start as int, end as int),
        final(ms).user_root_page_table == old(ms).user_root_page_table,
        final(frames).wf(),
        final(pt).wf(final(frames)),
        ms_wf(final(ms).mappings@, final(pt), final(frames)),
        pending_ok(bs, 0, final(pt), final(frames), before),
        forall|a: u64| #[trigger] final(pt).holds_page(a) ==> old(pt).holds_page(a),
        forall|a: u64| #[trigger] final(frames).used().contains(a) ==> old(frames).used().contains(a),
        forall|a: u64| #[trigger] old(frames).used().contains(a) && !overlap_frames(old(ms).mappings@, start as int, end as int).contains(a)
            ==> final(frames).used().contains(a),
        forall|i: int| 0 <= i < old(ms).mappings@.len() && spec_overlaps(old(ms).mappings@[i], start as int, end as int)
            ==> !final(frames).used().contains(#[trigger] old(ms).mappings@[i].frame.start),
        final(frames).page_count() >= old(frames).page_count(),
        unblocked_kept(old(pt), final(pt), tid),
        old(pt).has_space(tid) ==> forall|i: int| 0 <= i < old(ms).mappings@.len()
            && spec_overlaps(old(ms).mappings@[i], start as int, end as int)
            ==> #[trigger] pages_unmapped(final(pt).user_space(tid), old(ms).mappings@[i]),
{
    let ghost s = ms.mappings@;
    let ghost pt0 = *pt;
    let ghost f0 = *frames;
    let ghost ov = overlap_frames(s, start as int, end as int);
    let mut n: usize = ms.mappings.len();
    assert(s.take(n as int) + untouched(s.skip(n as int), start as int, end as int) =~= s) by {
        assert(s.skip(n as int) =~= Seq::<UserMapping>::empty());
        assert(s.take(n as int) =~= s);
    }
    while n > 0
        invariant
            n <= s.len(),
            s == old(ms).mappings@,
            ms.mappings@ == s.take(n as int) + untouched(s.skip(n as int), start as int, end as int),
            ms.user_root_page_table == old(ms).user_root_page_table,
            frames.wf(),
            pt.wf(frames),
            ms_wf(ms.mappings@, pt, frames),
            ms_wf(s, &pt0, &f0),
            pending_ok(bs, 0, pt, frames, before),
            forall|i: int| 0 <= i < s.len() ==> before.contains(#[trigger] s[i].frame.start),
            forall|a: u64| #[trigger] pt.holds_page(a) ==> pt0.holds_page(a),
            forall|a: u64| #[trigger] frames.used().contains(a) ==> f0.used().contains(a),
            forall|a: u64| #[trigger] f0.used().contains(a) && !ov.contains(a) ==> frames.used().contains(a),
            forall|i: int| n <= i < s.len() && spec_overlaps(s[i], start as int, end as int)
                ==> !frames.used().contains(#[trigger] s[i].frame.start),
            forall|i: int| 0 <= i < n ==> frames.used().contains(#[trigger] s[i].frame.start),
            ov == overlap_frames(s, start as int, end as int),
            f0 == *old(frames),
            pt0 == *old(pt),
            frames.page_count() >= f0.page_count(),
            unblocked_kept(&pt0, pt, tid),
            pt0.has_space(tid) ==> forall|i: int| n <= i < s.len() && spec_overlaps(s[i], start as int, end as int)
                ==> #[trigger] pages_unmapped(pt.user_space(tid), s[i]),
        decreases n,
    {
        n = n - 1;
        let ghost cur = ms.mappings@;
        proof {
            lemma_keeps_step(s, n as int, start as int, end as int);
            assert(s.take(n + 1) =~= s.take(n as int).push(s[n as int]));
            assert(cur[n as int] == s[n as int]);
        }
        if overlaps(&ms.mappings[n], start, end) {
            let mapping = ms.mappings.remove(n);
            let (a, b) = mapping_range(&mapping);
            proof {
                lemma_floor(mapping.va.0);
                assert(frames.used().contains(mapping.frame.start));
                assert(!pt.holds_page(mapping.frame.start));
                assert(ms.mappings@ =~= cur.remove(n as int));
                assert forall|k: int| 0 <= k < ms.mappings@.len() implies (#[trigger] ms.mappings@[k]).frame.start != mapping.frame.start by {
                    let k2 = if k < n { k } else { k + 1 };
                    assert(ms.mappings@[k] == cur[k2]);
                }
                assert forall|k: int| 0 <= k < ms.mappings@.len() implies mapping_ok(#[trigger] ms.mappings@[k])
                    && frames.used().contains(ms.mappings@[k].frame.start) && !pt.holds_page(ms.mappings@[k].frame.start) by {
                    let k2 = if k < n { k } else { k + 1 };
                    assert(ms.mappings@[k] == cur[k2]);
                }
                assert forall|k: int, l: int| 0 <= k < l < ms.mappings@.len() implies
                    (#[trigger] ms.mappings@[k]).frame.start != (#[trigger] ms.mappings@[l]).frame.start by {
                    let k2 = if k < n { k } else { k + 1 };
                    let l2 = if l < n { l } else { l + 1 };
                    assert(ms.mappings@[k] == cur[k2] && ms.mappings@[l] == cur[l2]);
                }
            }
            let ghost rest = ms.mappings@;
            let mut page = a;
            while page < b
                invariant
                    frames.wf(),
                    pt.wf(frames),
                    ms.mappings@ == rest,
                    ms_wf(rest, pt, frames),
                    pending_ok(bs, 0, pt, frames, before),
                    forall|x: u64| #[trigger] pt.holds_page(x) ==> pt0.holds_page(x),
                    !pt.holds_page(mapping.frame.start),
                    frames.used().contains(mapping.frame.start),
                    a <= page <= b,
                    page % 4096 == 0,
                    b % 4096 == 0,
                    frames.page_count() >= f0.page_count(),
                    unblocked_kept(&pt0, pt, tid),
                    pt0.has_space(tid) ==> forall|i: int| n < i < s.len() && spec_overlaps(s[i], start as int, end as int)
                        ==> #[trigger] pages_unmapped(pt.user_space(tid), s[i]),
                    pt0.has_space(tid) ==> forall|k: int| 0 <= k && a + k * 4096 < page
                        ==> #[trigger] pt.user_space(tid).translate((a + k * 4096) as u64) == None::<PageTableEntry>,
                    a == range_of(mapping).0,
                    b == range_of(mapping).1,
                    (page - a) % 4096 == 0,
                decreases b - page,
            {
                let ghost pt1 = *pt;
                let _ = pt.user_unmap(tid, VirtualAddr(page), frames);
                proof {
                    assert forall|x: u64| #[trigger] pt.holds_page(x) implies pt0.holds_page(x) by {
                        assert(pt1.holds_page(x));
                    }
                    assert(kept_in(&pt1, frames, pt, frames, Set::<u64>::empty()));
                    lemma_ms_keep(rest, &pt1, frames, pt, frames, Set::<u64>::empty());
                    lemma_unblocked_trans(&pt0, &pt1, pt, tid);
                    if pt0.has_space(tid) {
                        assert forall|i: int| n < i < s.len() && spec_overlaps(s[i], start as int, end as int)
                            implies #[trigger] pages_unmapped(pt.user_space(tid), s[i]) by {
                            assert(pages_unmapped(pt1.user_space(tid), s[i]));
                        }
                        assert forall|k: int| 0 <= k && a + k * 4096 < page + 4096
                            implies #[trigger] pt.user_space(tid).translate((a + k * 4096) as u64) == None::<PageTableEntry> by {
                            if a + k * 4096 < page {
                                assert(pt1.user_space(tid).translate((a + k * 4096) as u64) == None::<PageTableEntry>);
                            } else {
                                assert((a + k * 4096) as u64 == page);
                            }
                        }
                    }
                }
                page = page + 4096;
            }
            let ghost f2 = *frames;
            frames.dealloc_frame(mapping.frame);
            proof {
                assert forall|x: u64| #[trigger] pt.holds_page(x) implies frames.used().contains(x) by {
                    pt.lemma_holds_used(&f2, x);
                }
                pt.lemma_wf_keep(&f2, frames);
                assert forall|k: int| 0 <= k < rest.len() implies mapping_ok(#[trigger] rest[k])
                    && frames.used().contains(rest[k].frame.start) && !pt.holds_page(rest[k].frame.start) by {
                    assert(rest[k].frame.start != mapping.frame.start);
                }
                assert forall|b2: int| 0 <= b2 < bs.len() implies frames.used().contains(#[trigger] bs[b2].start)
                    && !pt.holds_page(bs[b2].start) && !before.contains(bs[b2].start) by {
                    assert(bs[b2].start != mapping.frame.start);
                }
                assert(ov.contains(mapping.frame.start));
                assert forall|x: u64| #[trigger] f0.used().contains(x) && !ov.contains(x) implies frames.used().contains(x) by {
                    assert(x != mapping.frame.start);
                }
                assert forall|k: int| n <= k < s.len() && spec_overlaps(s[k], start as int, end as int)
                    implies !frames.used().contains(#[trigger] s[k].frame.start) by {
                    if k != n {
                        assert(s[k].frame.start != s[n as int].frame.start);
                    }
                }
                assert forall|k: int| 0 <= k < n implies frames.used().contains(#[trigger] s[k].frame.start) by {
                    assert(s[k].frame.start != s[n as int].frame.start);
                }
                assert(ms.mappings@ =~= s.take(n as int) + untouched(s.skip(n as int), start as int, end as int));
            }
        } else {
            proof {
                assert(ms.mappings@ =~= s.take(n as int) + untouched(s.skip(n as int), start as int, end as int));
            }
        }
    }
    proof {
        assert(s.take(0) + untouched(s.skip(0), start as int, end as int) =~= untouched(s, start as int, end as int)) by {
            assert(s.skip(0) =~= s);
        }
    }
}


/// The blocks of `v`.
pub open spec fn starts_of(v: Seq<Frame>) -> Set<u64> {
    Set::new(|a: u64| exists|b: int| 0 <= b < v.len() && (#[trigger] v[b]).start == a)
}

/// Maps each piece on its block, in order.  On an error the blocks not
/// mapped yet are given back.
fn map_pieces(
    ms: &mut MemorySet,
    tid: Tid,
    keeps: &Vec<Keep>,
    bufs: &Vec<Frame>,
    pt: &mut PageTableManager,
    frames: &mut FrameAllocator,
    Ghost(before): Ghost<Set<u64>>,
) -> (r: Result<(), ErrorCode>)
    requires
        ms_wf(old(ms).mappings@, old(pt), old(frames)),
        old(pt).wf(old(frames)),
        old(frames).wf(),
        keeps@.len() == bufs@.len(),
        pending_ok(bufs@, 0, old(pt), old(frames), before),
        forall|b: int| 0 <= b < bufs@.len() ==> fits_piece(keeps@[b], #[trigger] bufs@[b]),
        forall|i: int| 0 <= i < old(ms).mappings@.len() ==> before.contains(#[trigger] old(ms).mappings@[i].frame.start),
    ensures
        final(frames).wf(),
        final(pt).wf(final(frames)),
        ms_wf(final(ms).mappings@, final(pt), final(frames)),
        final(ms).user_root_page_table == old(ms).user_root_page_table,
        kept_in(old(pt), old(frames), final(pt), final(frames), starts_of(bufs@)),
        final(ms).mappings@.len() >= old(ms).mappings@.len(),
        forall|i: int| 0 <= i < old(ms).mappings@.len() ==> #[trigger] final(ms).mappings@[i] == old(ms).mappings@[i],
        forall|i: int| old(ms).mappings@.len() <= i < final(ms).mappings@.len()
            ==> starts_of(bufs@).contains(#[trigger] final(ms).mappings@[i].frame.start),
        match r {
            Ok(()) => {
                &&& final(ms).mappings@.len() == old(ms).mappings@.len() + bufs@.len()
                &&& forall|i: int| 0 <= i < old(ms).mappings@.len() ==> #[trigger] final(ms).mappings@[i] == old(ms).mappings@[i]
                &&& forall|k: int| 0 <= k < bufs@.len() ==> #[trigger] final(ms).mappings@[old(ms).mappings@.len() + k]
                    == (UserMapping { va: VirtualAddr(keeps@[k].va), frame: bufs@[k], flags: keeps@[k].flags })
                &&& kept_in(old(pt), old(frames), final(pt), final(frames), Set::<u64>::empty())
            },
            Err(e) => e == ErrorCode::ENOMEM || e == ErrorCode::EINVAL,
        },
        bufs@.len() == 0 ==> r is Ok && *final(frames) == *old(frames) && *final(pt) == *old(pt),
{
    let ghost s0 = ms.mappings@;
    let ghost pt0 = *pt;
    let ghost f0 = *frames;
    let ghost bs = bufs@;
    let ghost e: Set<u64> = Set::empty();
    let mut j: usize = 0;
    while j < bufs.len()
        invariant
            j == 0 ==> *frames == *old(frames) && *pt == *old(pt),
            j <= bs.len(),
            bs == bufs@,
            keeps@.len() == bs.len(),
            ms.mappings@.len() == s0.len() + j,
            forall|i: int| 0 <= i < s0.len() ==> #[trigger] ms.mappings@[i] == s0[i],
            forall|k: int| 0 <= k < j ==> #[trigger] ms.mappings@[s0.len() + k]
                == (UserMapping { va: VirtualAddr(keeps@[k].va), frame: bs[k], flags: keeps@[k].flags }),
            ms.user_root_page_table == old(ms).user_root_page_table,
            frames.wf(),
            pt.wf(frames),
            ms_wf(ms.mappings@, pt, frames),
            pending_ok(bs, j as int, pt, frames, before),
            pending_ok(bs, 0, &pt0, &f0, before),
            forall|b: int| 0 <= b < bs.len() ==> fits_piece(keeps@[b], #[trigger] bs[b]),
            forall|i: int| 0 <= i < s0.len() ==> before.contains(#[trigger] s0[i].frame.start),
            kept_in(&pt0, &f0, pt, frames, e),
            e == Set::<u64>::empty(),
            s0 == old(ms).mappings@,
            pt0 == *old(pt),
            f0 == *old(frames),
        decreases bs.len() - j,
    {
        let f = bufs[j];
        let k = keeps[j];
        let ghost pt1 = *pt;
        let ghost f1 = *frames;
        let ghost m0 = ms.mappings@;
        proof {
            assert forall|i: int| 0 <= i < m0.len() implies (#[trigger] m0[i]).frame.start != f.start by {
                if i < s0.len() {
                    assert(m0[i] == s0[i]);
                    assert(before.contains(s0[i].frame.start));
                } else {
                    assert(m0[s0.len() + (i - s0.len())].frame == bs[i - s0.len()]);
                }
            }
            assert(fits_piece(k, f));
        }
        match map_frame(ms, tid, k.va, f, k.flags, pt, frames) {
            Ok(()) => {},
            Err(err) => {
                proof {
                    assert forall|i: int| s0.len() <= i < ms.mappings@.len()
                        implies starts_of(bs).contains(#[trigger] ms.mappings@[i].frame.start) by {
                        assert(ms.mappings@[s0.len() + (i - s0.len())].frame == bs[i - s0.len()]);
                    }
                }
                let ghost rest = Set::new(|a: u64| !(exists|b: int| j + 1 <= b < bs.len() && (#[trigger] bs[b]).start == a));
                let ghost f2 = *frames;
                proof {
                    assert forall|b: int| j + 1 <= b < bs.len() implies frames.used().contains(#[trigger] bs[b].start)
                        && !pt.holds_page(bs[b].start) && !rest.contains(bs[b].start) by {
                        assert(bs[b].start != f.start);
                        assert(f1.used().contains(bs[b].start));
                        if pt.holds_page(bs[b].start) {
                            assert(pt1.holds_page(bs[b].start) || !f1.used().contains(bs[b].start));
                        }
                    }
                    assert forall|i: int| 0 <= i < ms.mappings@.len() implies rest.contains(#[trigger] ms.mappings@[i].frame.start) by {
                        if i < s0.len() {
                            assert(ms.mappings@[i] == s0[i]);
                            assert(before.contains(s0[i].frame.start));
                            if exists|b: int| j + 1 <= b < bs.len() && (#[trigger] bs[b]).start == s0[i].frame.start {
                                let b = choose|b: int| j + 1 <= b < bs.len() && (#[trigger] bs[b]).start == s0[i].frame.start;
                            }
                        } else {
                            let kk = i - s0.len();
                            assert(ms.mappings@[s0.len() + kk].frame == bs[kk]);
                            if exists|b: int| j + 1 <= b < bs.len() && (#[trigger] bs[b]).start == bs[kk].start {
                                let b = choose|b: int| j + 1 <= b < bs.len() && (#[trigger] bs[b]).start == bs[kk].start;
                            }
                        }
                    }
                }
                give_back(bufs, j + 1, pt, frames, Ghost(ms.mappings@), Ghost(rest));
                proof {
                    lemma_kept_trans(&pt0, &f0, &pt1, &f1, pt, frames, e, starts_of(bs));
                    assert(kept_in(&pt1, &f1, pt, frames, starts_of(bs))) by {
                        assert forall|a: u64| #[trigger] f1.used().contains(a) && !starts_of(bs).contains(a)
                            implies frames.used().contains(a) by {
                            assert(a != f.start) by {
                                assert(bs[j as int].start == f.start);
                            }
                            assert(f2.used().contains(a));
                            if !rest.contains(a) {
                                let b = choose|b: int| j + 1 <= b < bs.len() && (#[trigger] bs[b]).start == a;
                            }
                        }
                        assert forall|a: u64| #[trigger] pt.holds_page(a) implies pt1.holds_page(a) || !f1.used().contains(a)
                            || starts_of(bs).contains(a) by {
                            if a == f.start {
                                assert(bs[j as int].start == a);
                            }
                        }
                    }
                    lemma_kept_trans(&pt0, &f0, &pt1, &f1, pt, frames, e, starts_of(bs));
                    assert(e.union(starts_of(bs)) =~= starts_of(bs));
                }
                return Err(err);
            },
        }
        proof {
            assert forall|b: int| j + 1 <= b < bs.len() implies frames.used().contains(#[trigger] bs[b].start)
                && !pt.holds_page(bs[b].start) && !before.contains(bs[b].start) by {
                assert(bs[b].start != f.start);
                assert(f1.used().contains(bs[b].start));
                if pt.holds_page(bs[b].start) {
                    assert(pt1.holds_page(bs[b].start) || !f1.used().contains(bs[b].start));
                }
            }
            assert forall|i: int| 0 <= i < s0.len() implies #[trigger] ms.mappings@[i] == s0[i] by {
                assert(ms.mappings@[i] == m0[i]);
            }
            assert forall|kk: int| 0 <= kk < j + 1 implies #[trigger] ms.mappings@[s0.len() + kk]
                == (UserMapping { va: VirtualAddr(keeps@[kk].va), frame: bs[kk], flags: keeps@[kk].flags }) by {
                if kk < j {
                    assert(ms.mappings@[s0.len() + kk] == m0[s0.len() + kk]);
                }
            }
            assert(!pt.holds_page(f.start)) by {
                assert(ms.mappings@[s0.len() + j as int].frame.start == f.start);
            }
            assert(kept_in(&pt1, &f1, pt, frames, e)) by {
                assert forall|a: u64| #[trigger] f1.used().contains(a) && !e.contains(a) implies frames.used().contains(a) by {
                    if a != f.start {
                        assert(!set![f.start].contains(a));
                    }
                }
            }
            lemma_kept_trans(&pt0, &f0, &pt1, &f1, pt, frames, e, e);
            assert(e.union(e) =~= e);
        }
        j = j + 1;
    }
    proof {
        assert(kept_in(&pt0, &f0, pt, frames, starts_of(bs)));
        assert forall|i: int| s0.len() <= i < ms.mappings@.len()
            implies starts_of(bs).contains(#[trigger] ms.mappings@[i].frame.start) by {
            assert(ms.mappings@[s0.len() + (i - s0.len())].frame == bs[i - s0.len()]);
        }
    }
    Ok(())
}


/// Unmaps `[start, end)`: mappings that meet it are removed and their
/// blocks given back; the parts of them outside the range stay mapped on
/// fresh blocks.  All fresh blocks are taken before anything is removed,
/// so running out of memory there changes nothing.
fn unmap_range(
    ms: &mut MemorySet,
    tid: Tid,
    start: u64,
    end: u64,
    pt: &mut PageTableManager,
    frames: &mut FrameAllocator,
    ops: &mut Vec<MemOp>,
) -> (r: Result<(), ErrorCode>)
    requires
        ms_wf(old(ms).mappings@, old(pt), old(frames)),
        old(pt).wf(old(frames)),
        old(frames).wf(),
    ensures
        final(frames).wf(),
        final(pt).wf(final(frames)),
        ms_wf(final(ms).mappings@, final(pt), final(frames)),
        final(ms).user_root_page_table == old(ms).user_root_page_table,
        kept_in(old(pt), old(frames), final(pt), final(frames), overlap_frames(old(ms).mappings@, start as int, end as int)),
        blocks_from(old(ms).mappings@, final(ms).mappings@, old(frames).used()),
        final(ops)@.subrange(0, old(ops)@.len() as int) == old(ops)@,
        final(ops)@.len() >= old(ops)@.len(),
        match r {
            Ok(()) => unmapped_as(old(ms).mappings@, final(ms).mappings@, start as int, end as int, old(frames).used())
                && final(ops)@ == old(ops)@ + piece_copies(keeps_of(old(ms).mappings@, start as int, end as int),
                    final(ms).mappings@,
                    final(ms).mappings@.len() - keeps_of(old(ms).mappings@, start as int, end as int).len()),
            Err(e) => e == ErrorCode::ENOMEM || e == ErrorCode::EINVAL,
        },
        keeps_of(old(ms).mappings@, start as int, end as int).len() == 0 ==> r is Ok
            && final(frames).page_count() >= old(frames).page_count() && unblocked_kept(old(pt), final(pt), tid),
        keeps_of(old(ms).mappings@, start as int, end as int).len() == 0 && old(pt).has_space(tid)
            ==> forall|i: int| 0 <= i < old(ms).mappings@.len() && spec_overlaps(old(ms).mappings@[i], start as int, end as int)
                ==> #[trigger] pages_unmapped(final(pt).user_space(tid), old(ms).mappings@[i]),
{
    proof {
        assert(ops@.subrange(0, ops@.len() as int) =~= ops@);
    }
    let ghost s = ms.mappings@;
    let ghost pt0 = *pt;
    let ghost f0 = *frames;
    let ghost before = f0.used();
    let keeps = collect_keeps(ms, start, end);
    let bufs = match take_blocks(&keeps, pt, frames, Ghost(ms.mappings@)) {
        Some(v) => v,
        None => {
            proof {
                assert(kept_in(&pt0, &f0, pt, frames, overlap_frames(s, start as int, end as int)));
                assert forall|i: int| 0 <= i < s.len() implies frames_of(s).contains(#[trigger] s[i].frame.start) by {}
            }
            return Err(ErrorCode::ENOMEM);
        },
    };
    let ghost f1 = *frames;
    proof {
        assert forall|i: int| 0 <= i < s.len() implies before.contains(#[trigger] s[i].frame.start) by {}
    }
    let ghost o0 = ops@;
    let mut copies: Vec<MemOp> = Vec::new();
    let mut b: usize = 0;
    while b < keeps.len()
        invariant
            b <= keeps@.len(),
            keeps@.len() == bufs@.len(),
            copies@.len() == b,
            forall|k: int| 0 <= k < b ==> #[trigger] copies@[k] == (MemOp::Copy {
                from: keeps@[k].pa, to: bufs@[k].start, len: keeps@[k].size }),
        decreases keeps@.len() - b,
    {
        let k = keeps[b];
        copies.push(MemOp::Copy { from: k.pa, to: bufs[b].start, len: k.size });
        b = b + 1;
    }
    let ghost cv = copies@;
    ops.append(&mut copies);
    proof {
        assert(o0 == old(ops)@);
        assert(ops@ =~= old(ops)@ + cv);
        assert(ops@.subrange(0, old(ops)@.len() as int) =~= old(ops)@);
    }
    remove_overlapping(ms, tid, start, end, pt, frames, Ghost(bufs@), Ghost(before));
    let ghost pt2 = *pt;
    let ghost f2 = *frames;
    let ghost u = ms.mappings@;
    proof {
        lemma_untouched_in(s, start as int, end as int);
        assert forall|i: int| 0 <= i < u.len() implies before.contains(#[trigger] u[i].frame.start) by {
            let j = choose|j: int| 0 <= j < s.len() && s[j] == #[trigger] u[i] && !spec_overlaps(s[j], start as int, end as int);
        }
    }
    let r = map_pieces(ms, tid, &keeps, &bufs, pt, frames, Ghost(before));
    proof {
        let ov = overlap_frames(s, start as int, end as int);
        assert forall|i: int| 0 <= i < ms.mappings@.len() implies frames_of(s).contains(#[trigger] ms.mappings@[i].frame.start)
            || !before.contains(ms.mappings@[i].frame.start) by {
            if i < u.len() {
                assert(ms.mappings@[i] == u[i]);
                let j = choose|j: int| 0 <= j < s.len() && s[j] == #[trigger] u[i] && !spec_overlaps(s[j], start as int, end as int);
                assert(s[j].frame.start == ms.mappings@[i].frame.start);
            } else {
                let b = choose|b: int| 0 <= b < bufs@.len() && (#[trigger] bufs@[b]).start == ms.mappings@[i].frame.start;
            }
        }
        assert forall|a: u64| #[trigger] f0.used().contains(a) && !ov.contains(a) implies frames.used().contains(a) by {
            assert(f1.used().contains(a));
            assert(f2.used().contains(a));
            if starts_of(bufs@).contains(a) {
                let b = choose|b: int| 0 <= b < bufs@.len() && (#[trigger] bufs@[b]).start == a;
                assert(!before.contains(bufs@[b].start));
            }
        }
        assert forall|a: u64| #[trigger] pt.holds_page(a) implies pt0.holds_page(a) || !f0.used().contains(a) || ov.contains(a) by {
            if !pt2.holds_page(a) {
                if f0.used().contains(a) && !ov.contains(a) {
                    assert(f2.used().contains(a));
                    if starts_of(bufs@).contains(a) {
                        let b = choose|b: int| 0 <= b < bufs@.len() && (#[trigger] bufs@[b]).start == a;
                        assert(!before.contains(bufs@[b].start));
                    }
                }
            }
        }
        if r is Ok {
            let ks = keeps_of(s, start as int, end as int);
            let t = ms.mappings@;
            assert(keeps@ == ks);
            assert(t.len() == u.len() + ks.len());
            assert(cv.len() == ks.len());
            assert(ops@ =~= o0 + piece_copies(ks, t, t.len() - ks.len())) by {
                assert(cv =~= piece_copies(ks, t, t.len() - ks.len())) by {
                assert forall|k: int| 0 <= k < ks.len() implies #[trigger] cv[k]
                    == piece_copies(ks, t, t.len() - ks.len())[k] by {
                    assert(t[u.len() + k].frame == bufs@[k]);
                }
                }
            }
            assert forall|k: int| 0 <= k < ks.len() implies {
                let m = #[trigger] ms.mappings@[u.len() + k];
                &&& m.va.0 == ks[k].va
                &&& m.flags == ks[k].flags
                &&& spec_block_size(ks[k].size as nat, m.frame.size as nat)
                &&& !before.contains(m.frame.start)
            } by {
                assert(fits_piece(keeps@[k], bufs@[k]));
            }
        }
    }
    r
}


/// `t` ends with one new mapping `m` at `va` with `flags`, on a fresh
/// block for `size` bytes; before it come the mappings of `mid`.
pub open spec fn ends_with_new(mid: Seq<UserMapping>, t: Seq<UserMapping>, va: u64, size: u64, flags: PageTableEntryFlags, before: Set<u64>) -> bool {
    &&& t.len() == mid.len() + 1
    &&& forall|i: int| 0 <= i < mid.len() ==> #[trigger] t[i] == mid[i]
    &&& t.last().va.0 == va
    &&& t.last().flags == flags
    &&& spec_block_size(size as nat, t.last().frame.size as nat)
    &&& !before.contains(t.last().frame.start)
}

/// `t` is `s` with `[old_start, old_end)` unmapped and one fresh mapping
/// of `size` bytes at `dest` with `flags` added at the end.
pub open spec fn rebuilt(s: Seq<UserMapping>, t: Seq<UserMapping>, old_start: int, old_end: int, dest: u64, size: u64,
    flags: PageTableEntryFlags, before: Set<u64>) -> bool {
    exists|mid: Seq<UserMapping>| unmapped_as(s, mid, old_start, old_end, before)
        && #[trigger] ends_with_new(mid, t, dest, size, flags, before)
}

/// Every page of the first `len` bytes from `start` is mapped.
pub open spec fn pages_mapped(s: Seq<UserMapping>, start: int, len: int) -> bool {
    forall|k: int| 0 <= k && k * 4096 < len ==> (#[trigger] phys_at(s, start + k * 4096)) is Some
}

/// The copies that carry the `len` bytes from `start` of the mappings
/// `s` over to the block at `to`, page by page.
pub open spec fn page_copies(s: Seq<UserMapping>, start: int, len: int, to: u64) -> Seq<MemOp> {
    Seq::new(((len + 4095) / 4096) as nat, |j: int| MemOp::Copy {
        from: phys_at(s, start + j * 4096)->Some_0,
        to: (to + j * 4096) as u64,
        len: 4096,
    })
}

/// What `rebuild` hands back when it turns the mappings `s` into `t`:
/// zero the new block (the last mapping of `t`), copy the carried pages
/// into it, then carry over the pieces that stay mapped around the old
/// range.
pub open spec fn rebuild_ops(s: Seq<UserMapping>, t: Seq<UserMapping>, old_start: int, old_end: int, new_size: u64)
    -> Seq<MemOp> {
    let copy_len = if old_end - old_start < new_size { old_end - old_start } else { new_size as int };
    let ks = keeps_of(s, old_start, old_end);
    let f = t.last().frame.start;
    seq![MemOp::Zero { at: f, len: new_size }] + page_copies(s, old_start, copy_len, f)
        + piece_copies(ks, t, t.len() - 1 - ks.len())
}

/// The requests of a resize or move keep the contents: first the new
/// block is zeroed, then page `j` of the carried bytes is copied from the
/// physical address page `old_start + j * 4096` had in `s` to page `j` of
/// the new block, for every page of the first `min(old, new)` bytes.
pub proof fn lemma_rebuild_carries_pages(s: Seq<UserMapping>, t: Seq<UserMapping>, old_start: int, old_end: int,
    new_size: u64, j: int)
    requires
        0 <= j,
        j * 4096 < (if old_end - old_start < new_size { old_end - old_start } else { new_size as int }),
    ensures
        rebuild_ops(s, t, old_start, old_end, new_size)[0] == (MemOp::Zero { at: t.last().frame.start, len: new_size }),
        rebuild_ops(s, t, old_start, old_end, new_size)[1 + j] == (MemOp::Copy {
            from: phys_at(s, old_start + j * 4096)->Some_0,
            to: (t.last().frame.start + j * 4096) as u64,
            len: 4096,
        }),
{
    let copy_len = if old_end - old_start < new_size { old_end - old_start } else { new_size as int };
    assert(j < (copy_len + 4095) / 4096) by (nonlinear_arith)
        requires j * 4096 < copy_len, j >= 0;
    let f = t.last().frame.start;
    let pc = page_copies(s, old_start, copy_len, f);
    let ks = keeps_of(s, old_start, old_end);
    let ops = seq![MemOp::Zero { at: f, len: new_size }] + pc + piece_copies(ks, t, t.len() - 1 - ks.len());
    assert((seq![MemOp::Zero { at: f, len: new_size }] + pc)[1 + j] == pc[j]);
    assert(ops[1 + j] == pc[j]);
}

/// Replaces `[old_start, old_end)` by one mapping of `new_size` bytes at
/// `dest` with `flags` on a fresh block (the contents of the first
/// `min(old, new)` bytes are carried over).  `EFAULT`, before anything
/// changes, when a page of those bytes is not mapped.
fn rebuild(
    ms: &mut MemorySet,
    tid: Tid,
    old_start: u64,
    old_end: u64,
    dest: u64,
    new_size: u64,
    flags: PageTableEntryFlags,
    pt: &mut PageTableManager,
    frames: &mut FrameAllocator,
    ops: &mut Vec<MemOp>,
) -> (r: Result<(), ErrorCode>)
    requires
        ms_wf(old(ms).mappings@, old(pt), old(frames)),
        old(pt).wf(old(frames)),
        old(frames).wf(),
        old_start <= old_end,
    ensures
        final(frames).wf(),
        final(pt).wf(final(frames)),
        ms_wf(final(ms).mappings@, final(pt), final(frames)),
        final(ms).user_root_page_table == old(ms).user_root_page_table,
        match r {
            Ok(()) => rebuilt(old(ms).mappings@, final(ms).mappings@, old_start as int, old_end as int, dest, new_size, flags,
                old(frames).used())
                && final(ops)@ == old(ops)@ + rebuild_ops(old(ms).mappings@, final(ms).mappings@, old_start as int,
                    old_end as int, new_size),
            Err(e) => {
                &&& e == ErrorCode::ENOMEM || e == ErrorCode::EINVAL || e == ErrorCode::EFAULT
                &&& final(ops)@.subrange(0, old(ops)@.len() as int) == old(ops)@
                &&& final(ops)@.len() >= old(ops)@.len()
                &&& e == ErrorCode::EFAULT ==> final(ms).mappings@ == old(ms).mappings@ && final(ops)@ == old(ops)@
                    && !pages_mapped(old(ms).mappings@, old_start as int,
                        if old_end - old_start < new_size { old_end - old_start } else { new_size as int })
            },
        },
        r == Err::<(), ErrorCode>(ErrorCode::ENOMEM) ==> !old(frames).can_supply(new_size)
            || keeps_of(old(ms).mappings@, old_start as int, old_end as int).len() > 0
            || page_floor(dest) + block_of(new_size as int) > u64::MAX
            || old(frames).page_count() < 4 * (block_of(new_size as int) / 4096),
        r == Err::<(), ErrorCode>(ErrorCode::EINVAL) ==> keeps_of(old(ms).mappings@, old_start as int, old_end as int).len() > 0
            || !old(pt).has_space(tid) || exists|w: u64| #[trigger] old(pt).user_space(tid).blocked(w),
{
    proof {
        assert(ops@.subrange(0, ops@.len() as int) =~= ops@);
    }
    let ghost s0 = ms.mappings@;
    let ghost pt0 = *pt;
    let ghost f0 = *frames;
    let old_size = old_end - old_start;
    let copy_len = if old_size < new_size { old_size } else { new_size };
    let frame = match alloc_frame(Some(new_size), frames) {
        Some(f) => f,
        None => {
            proof {
                assert forall|a: u64| #[trigger] pt.holds_page(a) implies frames.used().contains(a) by {
                    pt.lemma_holds_used(&f0, a);
                }
                pt.lemma_wf_keep(&f0, frames);
                lemma_ms_keep(s0, &pt0, &f0, pt, frames, Set::<u64>::empty());
            }
            return Err(ErrorCode::ENOMEM);
        },
    };
    let ghost f1 = *frames;
    proof {
        assert(!pt.holds_page(frame.start)) by {
            if pt.holds_page(frame.start) {
                pt.lemma_holds_used(&f0, frame.start);
            }
        }
        assert forall|a: u64| #[trigger] pt.holds_page(a) implies frames.used().contains(a) by {
            pt.lemma_holds_used(&f0, a);
        }
        pt.lemma_wf_keep(&f0, frames);
        lemma_ms_keep(s0, &pt0, &f0, pt, frames, Set::<u64>::empty());
        assert forall|i: int| 0 <= i < s0.len() implies (#[trigger] s0[i]).frame.start != frame.start by {
            assert(f0.used().contains(s0[i].frame.start));
        }
    }
    // The first `copy_len` bytes must be mapped.
    let mut off: u64 = 0;
    let ghost mut k: int = 0;
    let mut cps: Vec<MemOp> = Vec::new();
    while off < copy_len
        invariant_except_break
            cps@.len() == k,
        invariant
            cps@.len() <= k + 1,
            forall|j: int| 0 <= j < cps@.len() ==> #[trigger] cps@[j] == (MemOp::Copy {
                from: phys_at(s0, old_start + j * 4096)->Some_0, to: (frame.start + j * 4096) as u64, len: 4096 }),
            k > 0 ==> off < copy_len,
            frame.start + frame.size <= u64::MAX,
            frame.size >= new_size,
            off == k * 4096,
            k >= 0,
            copy_len <= old_end - old_start,
            copy_len == (if old_end - old_start < new_size { old_end - old_start } else { new_size as int }),
            *frames == f1,
            ms.mappings@ == s0,
            ms.user_root_page_table == old(ms).user_root_page_table,
            frames.wf(),
            pt.wf(frames),
            ms_wf(s0, pt, frames),
            frames.used().contains(frame.start),
            !pt.holds_page(frame.start),
            frame_free_of(s0, frame.start),
            frame.start % 4096 == 0,
            frame.size % 4096 == 0,
            frame.start < MAX_PHYS,
            frame.size <= 0x100_0000_0000,
            spec_block_size(new_size as nat, frame.size as nat),
            kept_in(&pt0, &f0, pt, frames, Set::<u64>::empty()),
            forall|a: u64| #[trigger] f0.used().contains(a) ==> f1.used().contains(a),
            !f0.used().contains(frame.start),
            pt0 == *old(pt),
            f0 == *old(frames),
            forall|i: int| 0 <= i < ms.mappings@.len() ==> mapping_ok(#[trigger] ms.mappings@[i]),
            forall|j: int| 0 <= j < k ==> (#[trigger] phys_at(ms.mappings@, old_start + j * 4096)) is Some,
        ensures
            cps@.len() == (copy_len + 4095) / 4096,
            forall|j: int| 0 <= j < cps@.len() ==> #[trigger] cps@[j] == (MemOp::Copy {
                from: phys_at(s0, old_start + j * 4096)->Some_0, to: (frame.start + j * 4096) as u64, len: 4096 }),
            forall|j: int| 0 <= j && j * 4096 < copy_len ==> (#[trigger] phys_at(ms.mappings@, old_start + j * 4096)) is Some,
            *frames == f1,
            ms.mappings@ == s0,
            ms.user_root_page_table == old(ms).user_root_page_table,
            frames.wf(),
            pt.wf(frames),
            ms_wf(s0, pt, frames),
            frames.used().contains(frame.start),
            !pt.holds_page(frame.start),
            frame_free_of(s0, frame.start),
            frame.start % 4096 == 0,
            frame.size % 4096 == 0,
            frame.start < MAX_PHYS,
            frame.size <= 0x100_0000_0000,
            spec_block_size(new_size as nat, frame.size as nat),
            kept_in(&pt0, &f0, pt, frames, Set::<u64>::empty()),
            forall|a: u64| #[trigger] f0.used().contains(a) ==> f1.used().contains(a),
            !f0.used().contains(frame.start),
            pt0 == *old(pt),
            f0 == *old(frames),
            forall|i: int| 0 <= i < ms.mappings@.len() ==> mapping_ok(#[trigger] ms.mappings@[i]),
        decreases copy_len - off,
    {
        let pp = page_phys(ms, old_start + off);
        if pp.is_none() {
            let ghost f2 = *frames;
            frames.dealloc_frame(frame);
            proof {
                assert forall|a: u64| #[trigger] pt.holds_page(a) implies frames.used().contains(a) by {
                    pt.lemma_holds_used(&f2, a);
                }
                pt.lemma_wf_keep(&f2, frames);
                assert forall|i: int| 0 <= i < s0.len() implies mapping_ok(#[trigger] s0[i])
                    && frames.used().contains(s0[i].frame.start) && !pt.holds_page(s0[i].frame.start) by {
                    assert(s0[i].frame.start != frame.start);
                }
                assert(!pages_mapped(s0, old_start as int, copy_len as int)) by {
                    assert(k * 4096 < copy_len);
                    assert(phys_at(s0, old_start + k * 4096) is None);
                }
            }
            return Err(ErrorCode::EFAULT);
        }
        let src = match pp {
            Some(a) => a,
            None => 0,
        };
        assert(off <= copy_len <= new_size <= frame.size);
        cps.push(MemOp::Copy { from: src, to: frame.start + off, len: 4096 });
        if copy_len - off <= 4096 {
            assert((copy_len + 4095) / 4096 == k + 1) by (nonlinear_arith)
                requires off == k * 4096, copy_len - off <= 4096, off < copy_len, k >= 0;
            proof {
                assert forall|j: int| 0 <= j && j * 4096 < copy_len implies (#[trigger] phys_at(ms.mappings@, old_start + j * 4096)) is Some by {
                    if j > k {
                        assert(j * 4096 >= (k + 1) * 4096) by (nonlinear_arith) requires j > k;
                    }
                }
            }
            break;
        }
        off = off + 4096;
        proof {
            k = k + 1;
        }
    }
    let ghost o0 = ops@;
    let ghost cv = cps@;
    proof {
        assert(o0 == old(ops)@);
        assert(cv =~= page_copies(s0, old_start as int, copy_len as int, frame.start));
    }
    ops.push(MemOp::Zero { at: frame.start, len: new_size });
    ops.append(&mut cps);
    let ghost o1 = ops@;
    proof {
        assert(o1 =~= old(ops)@ + seq![MemOp::Zero { at: frame.start, len: new_size }] + cv);
        assert(o1.subrange(0, old(ops)@.len() as int) =~= old(ops)@);
    }
    let ghost f2 = *frames;
    let ghost pt2 = *pt;
    match unmap_range(ms, tid, old_start, old_end, pt, frames, ops) {
        Ok(()) => {},
        Err(e) => {
            proof {
                assert(o1.len() >= old(ops)@.len());
                assert(ops@.len() >= o1.len());
                assert(ops@.subrange(0, o1.len() as int) == o1);
                assert(ops@.subrange(0, old(ops)@.len() as int) =~= o1.subrange(0, old(ops)@.len() as int));
                let ov = overlap_frames(s0, old_start as int, old_end as int);
                assert(!ov.contains(frame.start)) by {
                    if ov.contains(frame.start) {
                        let i = choose|i: int| 0 <= i < s0.len() && spec_overlaps(s0[i], old_start as int, old_end as int)
                            && (#[trigger] s0[i]).frame.start == frame.start;
                    }
                }
                assert(frames.used().contains(frame.start));
                assert(!pt.holds_page(frame.start));
                assert forall|i: int| 0 <= i < ms.mappings@.len() implies (#[trigger] ms.mappings@[i]).frame.start != frame.start by {
                    if frames_of(s0).contains(ms.mappings@[i].frame.start) {
                        let j = choose|j: int| 0 <= j < s0.len() && (#[trigger] s0[j]).frame.start == ms.mappings@[i].frame.start;
                    }
                }
            }
            let ghost f3 = *frames;
            frames.dealloc_frame(frame);
            proof {
                assert forall|a: u64| #[trigger] pt.holds_page(a) implies frames.used().contains(a) by {
                    pt.lemma_holds_used(&f3, a);
                }
                pt.lemma_wf_keep(&f3, frames);
                let m = ms.mappings@;
                assert forall|i: int| 0 <= i < m.len() implies mapping_ok(#[trigger] m[i])
                    && frames.used().contains(m[i].frame.start) && !pt.holds_page(m[i].frame.start) by {}
            }
            return Err(e);
        },
    }
    proof {
        let ov = overlap_frames(s0, old_start as int, old_end as int);
        assert(!ov.contains(frame.start)) by {
            if ov.contains(frame.start) {
                let i = choose|i: int| 0 <= i < s0.len() && spec_overlaps(s0[i], old_start as int, old_end as int)
                    && (#[trigger] s0[i]).frame.start == frame.start;
            }
        }
        assert(frames.used().contains(frame.start));
        assert(!pt.holds_page(frame.start));
        lemma_floor(dest);
    }
    let ghost mid = ms.mappings@;
    let ghost o2 = ops@;
    proof {
        assert(o2.subrange(0, old(ops)@.len() as int) =~= o1.subrange(0, old(ops)@.len() as int));
        assert(o2 =~= o1 + piece_copies(keeps_of(s0, old_start as int, old_end as int), mid,
            mid.len() - keeps_of(s0, old_start as int, old_end as int).len()));
    }
    if (dest & !0xfffu64) > u64::MAX - frame.size {
        // A block reaching past the top of the address space cannot be
        // mapped at `dest`.
        let ghost f3 = *frames;
        frames.dealloc_frame(frame);
        proof {
            assert forall|a: u64| #[trigger] pt.holds_page(a) implies frames.used().contains(a) by {
                pt.lemma_holds_used(&f3, a);
            }
            pt.lemma_wf_keep(&f3, frames);
            assert forall|i: int| 0 <= i < mid.len() implies mapping_ok(#[trigger] mid[i])
                && frames.used().contains(mid[i].frame.start) && !pt.holds_page(mid[i].frame.start) by {
                if frames_of(s0).contains(mid[i].frame.start) {
                    let j = choose|j: int| 0 <= j < s0.len() && (#[trigger] s0[j]).frame.start == mid[i].frame.start;
                }
                assert(mid[i].frame.start != frame.start);
            }
        }
        return Err(ErrorCode::ENOMEM);
    }
    proof {
        assert forall|i: int| 0 <= i < mid.len() implies (#[trigger] mid[i]).frame.start != frame.start by {
            if frames_of(s0).contains(mid[i].frame.start) {
                let j = choose|j: int| 0 <= j < s0.len() && (#[trigger] s0[j]).frame.start == mid[i].frame.start;
            }
        }
    }
    let ghost pt4 = *pt;
    let r = map_frame(ms, tid, dest, frame, flags, pt, frames);
    proof {
        if keeps_of(s0, old_start as int, old_end as int).len() == 0 {
            assert(pt2 == pt0);
            assert(unblocked_kept(&pt0, &pt4, tid));
            if r == Err::<(), ErrorCode>(ErrorCode::EINVAL) && pt0.has_space(tid) {
                let w = choose|w: u64| #[trigger] pt4.user_space(tid).blocked(w);
                assert(pt0.user_space(tid).blocked(w));
            }
        }
        if r is Ok {
            assert(ends_with_new(mid, ms.mappings@, dest, new_size, flags, f0.used()));
            let t = ms.mappings@;
            let ks = keeps_of(s0, old_start as int, old_end as int);
            assert(piece_copies(ks, t, t.len() - 1 - ks.len()) =~= piece_copies(ks, mid, mid.len() - ks.len()));
            assert(t.last().frame.start == frame.start);
            assert(o1 =~= old(ops)@ + seq![MemOp::Zero { at: frame.start, len: new_size }]
                + page_copies(s0, old_start as int, copy_len as int, frame.start));
            assert(ops@ =~= old(ops)@ + rebuild_ops(s0, t, old_start as int, old_end as int, new_size));
        }
    }
    r
}


/// `f` are the page-table flags of a mapping with protection `prot`.
pub open spec fn prot_flags(f: PageTableEntryFlags, prot: u64) -> bool {
    &&& f.flag(U_BIT) && f.flag(A_BIT) && f.flag(D_BIT)
    &&& f.flag(R_BIT) == (prot & PROT_MASK != 0)
    &&& f.flag(W_BIT) == (prot & PROT_WRITE != 0)
    &&& f.flag(X_BIT) == (prot & PROT_EXEC != 0)
    &&& forall|j: u64| j < 10 && j != R_BIT && j != W_BIT && j != X_BIT && j != U_BIT && j != A_BIT
        && j != D_BIT ==> !#[trigger] f.flag(j)
}

/// `t` is `s` after moving `[old_start, old_end)` to a mapping of
/// `new_size` bytes at `dest`, with the flags of the old range's first
/// page.
pub open spec fn moved(s: Seq<UserMapping>, t: Seq<UserMapping>, old_start: int, old_end: int, dest: u64, new_size: u64,
    before: Set<u64>) -> bool {
    &&& flags_at(s, old_start) is Some
    &&& rebuilt(s, t, old_start, old_end, dest, new_size, flags_at(s, old_start)->Some_0, before)
}

/// Moves `[old_start, old_end)` to `dest` with `new_size` bytes.  The
/// destination must lie in a user half, be free and not meet the old
/// range.
fn move_to(
    ms: &mut MemorySet,
    tid: Tid,
    old_start: u64,
    old_end: u64,
    dest: u64,
    new_size: u64,
    pt: &mut PageTableManager,
    frames: &mut FrameAllocator,
    ops: &mut Vec<MemOp>,
) -> (r: Result<u64, ErrorCode>)
    requires
        ms_wf(old(ms).mappings@, old(pt), old(frames)),
        old(pt).wf(old(frames)),
        old(frames).wf(),
        old_start < old_end,
    ensures
        final(frames).wf(),
        final(pt).wf(final(frames)),
        ms_wf(final(ms).mappings@, final(pt), final(frames)),
        final(ms).user_root_page_table == old(ms).user_root_page_table,
        dest + new_size > u64::MAX ==> r == Err::<u64, ErrorCode>(ErrorCode::ENOMEM) && final(ms).mappings@ == old(ms).mappings@,
        dest + new_size <= u64::MAX && !spec_canonical(dest as int, dest + new_size)
            ==> r == Err::<u64, ErrorCode>(ErrorCode::ENOMEM) && final(ms).mappings@ == old(ms).mappings@,
        dest + new_size <= u64::MAX && dest < old_end && old_start < dest + new_size
            ==> r == Err::<u64, ErrorCode>(ErrorCode::ENOMEM) && final(ms).mappings@ == old(ms).mappings@,
        !spec_range_free(old(ms).mappings@, dest as int, dest + new_size)
            ==> r is Err && final(ms).mappings@ == old(ms).mappings@ && final(ops)@ == old(ops)@
                && *final(pt) == *old(pt) && *final(frames) == *old(frames),
        match r {
            Ok(a) => a == dest && spec_canonical(dest as int, dest + new_size)
                && !(dest < old_end && old_start < dest + new_size)
                && spec_range_free(old(ms).mappings@, dest as int, dest + new_size)
                && moved(old(ms).mappings@, final(ms).mappings@, old_start as int, old_end as int, dest, new_size,
                    old(frames).used())
                && final(ops)@ == old(ops)@ + rebuild_ops(old(ms).mappings@, final(ms).mappings@, old_start as int,
                    old_end as int, new_size),
            Err(e) => (e == ErrorCode::ENOMEM || e == ErrorCode::EINVAL || e == ErrorCode::EFAULT)
                && final(ops)@.subrange(0, old(ops)@.len() as int) == old(ops)@ && final(ops)@.len() >= old(ops)@.len(),
        },
        spec_fully_mapped(old(ms).mappings@, old_start as int, old_end as int) ==> r != Err::<u64, ErrorCode>(ErrorCode::EFAULT),
        r == Err::<u64, ErrorCode>(ErrorCode::ENOMEM) ==> !move_fits(old(ms).mappings@, old_start, old_end, dest, new_size)
            || !old(frames).can_supply(new_size)
            || keeps_of(old(ms).mappings@, old_start as int, old_end as int).len() > 0
            || old(frames).page_count() < 4 * (block_of(new_size as int) / 4096),
        r == Err::<u64, ErrorCode>(ErrorCode::EINVAL) ==> keeps_of(old(ms).mappings@, old_start as int, old_end as int).len() > 0
            || !old(pt).has_space(tid) || exists|w: u64| #[trigger] old(pt).user_space(tid).blocked(w),
{
    proof {
        assert(ops@.subrange(0, ops@.len() as int) =~= ops@);
    }
    let ghost s0 = ms.mappings@;
    let ghost f0 = *frames;
    if dest > u64::MAX - new_size {
        return Err(ErrorCode::ENOMEM);
    }
    let dest_end = dest + new_size;
    if !is_canonical_user_range(dest, dest_end) {
        return Err(ErrorCode::ENOMEM);
    }
    if dest < old_end && old_start < dest_end {
        return Err(ErrorCode::ENOMEM);
    }
    if !range_is_free(ms, dest, dest_end) {
        return Err(ErrorCode::ENOMEM);
    }
    proof {
        if spec_fully_mapped(s0, old_start as int, old_end as int) {
            assert(phys_at(s0, old_start + 0 * 4096) is Some);
            lemma_flags_of_mapped(s0, old_start as int);
        }
    }
    let prot_flags = match flags_of_first(ms, old_start) {
        Some(f) => f,
        None => return Err(ErrorCode::EFAULT),
    };
    let r = rebuild(ms, tid, old_start, old_end, dest, new_size, prot_flags, pt, frames, ops);
    match r {
        Ok(()) => {
            proof {
                let t = ms.mappings@;
                assert(rebuilt(s0, t, old_start as int, old_end as int, dest, new_size, prot_flags, f0.used()));
                assert(flags_at(s0, old_start as int) is Some);
            }
            Ok(dest)
        },
        Err(e) => Err(e),
    }
}


/// The hint `addr` can be used as it is: page aligned, not zero, and the
/// range from it free.
pub open spec fn hint_free(s: Seq<UserMapping>, addr: u64, length: u64) -> bool {
    &&& addr != 0
    &&& addr % 4096 == 0
    &&& addr + length <= u64::MAX
    &&& spec_range_free(s, addr as int, addr + length)
}

/// `a` is where `mmap` places a mapping of `length` bytes: `addr` when
/// fixed or when the hint is free, else the free region found below the
/// user stack.
pub open spec fn target_ok(s: Seq<UserMapping>, addr: u64, length: u64, fixed: bool, a: u64) -> bool {
    if fixed {
        a == addr
    } else if hint_free(s, addr, length) {
        a == addr
    } else {
        is_free_region_of(s, length, Some(a))
    }
}

/// `t` is `s` with a new mapping of `length` bytes at `a` for protection
/// `prot` added last, after unmapping `[a, a + length)` first when
/// `replace`; its block was not in use (except a block just freed there).
pub open spec fn mmapped(s: Seq<UserMapping>, t: Seq<UserMapping>, a: u64, length: u64, prot: u64, replace: bool,
    before: Set<u64>) -> bool {
    exists|mid: Seq<UserMapping>, b1: Set<u64>, f: PageTableEntryFlags| {
        &&& (if replace { unmapped_as(s, mid, a as int, a + length, before) } else { mid == s })
        &&& forall|x: u64| #[trigger] before.contains(x) && !(replace && overlap_frames(s, a as int, a + length).contains(x))
            ==> b1.contains(x)
        &&& prot_flags(f, prot)
        &&& #[trigger] ends_with_new(mid, t, a, length, f, b1)
    }
}

/// What `mmap` of `length` (page-rounded) bytes at `addr` does to the
/// mappings `s`, giving `t` and `r`.
pub open spec fn mmap_result(s: Seq<UserMapping>, t: Seq<UserMapping>, addr: u64, length: u64, prot: u64, flags: u64,
    r: Result<u64, ErrorCode>, before: Set<u64>) -> bool {
    let fixed = flags & (MAP_FIXED | MAP_FIXED_NOREPLACE) != 0;
    let noreplace = flags & MAP_FIXED_NOREPLACE != 0;
    &&& fixed && addr % 4096 != 0 ==> r == Err::<u64, ErrorCode>(ErrorCode::EINVAL) && t == s
    &&& match r {
        Ok(a) => {
            &&& target_ok(s, addr, length, fixed, a)
            &&& a + length <= u64::MAX
            &&& spec_canonical(a as int, a + length)
            &&& (noreplace ==> spec_range_free(s, a as int, a + length))
            &&& mmapped(s, t, a, length, prot, fixed && !noreplace, before)
        },
        Err(e) => {
            &&& e == ErrorCode::EINVAL || e == ErrorCode::ENOMEM || e == ErrorCode::EEXIST
            &&& e == ErrorCode::EEXIST ==> noreplace && t == s
        },
    }
}

/// No target can take a mapping of `length` bytes that is not fixed:
/// the hint is not free and the downward scan finds no gap, or the
/// target picked does not fit the address space or the block that backs
/// it.
pub open spec fn mmap_no_room(s: Seq<UserMapping>, addr: u64, length: u64) -> bool {
    ||| !hint_free(s, addr, length) && is_free_region_of(s, length, None)
    ||| exists|a: u64| #[trigger] target_ok(s, addr, length, false, a) && !(a + length <= u64::MAX
        && spec_canonical(a as int, a + length) && page_floor(a) + block_of(length as int) <= u64::MAX)
}

/// The part of `mmap` after the arguments are checked and the task is
/// found: picks the target, unmaps it first for `MAP_FIXED`, and maps a
/// fresh block of `length` bytes there.
fn mmap_in(
    ms: &mut MemorySet,
    tid: Tid,
    addr: u64,
    length: u64,
    prot: u64,
    flags: u64,
    pt: &mut PageTableManager,
    frames: &mut FrameAllocator,
    ops: &mut Vec<MemOp>,
) -> (r: Result<u64, ErrorCode>)
    requires
        ms_wf(old(ms).mappings@, old(pt), old(frames)),
        old(pt).wf(old(frames)),
        old(frames).wf(),
    ensures
        final(frames).wf(),
        final(pt).wf(final(frames)),
        ms_wf(final(ms).mappings@, final(pt), final(frames)),
        final(ms).user_root_page_table == old(ms).user_root_page_table,
        mmap_result(old(ms).mappings@, final(ms).mappings@, addr, length, prot, flags, r, old(frames).used()),
        final(ops)@.subrange(0, old(ops)@.len() as int) == old(ops)@,
        final(ops)@.len() >= old(ops)@.len(),
        r is Ok ==> final(ops)@.len() > old(ops)@.len()
            && final(ops)@.last() == (MemOp::Zero { at: final(ms).mappings@.last().frame.start, len: length }),
        r is Ok && !(flags & (MAP_FIXED | MAP_FIXED_NOREPLACE) != 0 && flags & MAP_FIXED_NOREPLACE == 0) ==> final(ops)@ == old(ops)@.push(
            MemOp::Zero { at: final(ms).mappings@.last().frame.start, len: length }),
        r is Err ==> final(ops)@ == old(ops)@ || (flags & (MAP_FIXED | MAP_FIXED_NOREPLACE) != 0 && flags & MAP_FIXED_NOREPLACE == 0),
        (flags & (MAP_FIXED | MAP_FIXED_NOREPLACE) != 0 && addr % 4096 != 0) || r == Err::<u64, ErrorCode>(ErrorCode::EEXIST)
            ==> *final(pt) == *old(pt) && *final(frames) == *old(frames) && final(ops)@ == old(ops)@,
        flags & (MAP_FIXED | MAP_FIXED_NOREPLACE) == 0 && r == Err::<u64, ErrorCode>(ErrorCode::ENOMEM)
            ==> mmap_no_room(old(ms).mappings@, addr, length) || !old(frames).can_supply(length)
                || old(frames).page_count() < 4 * (block_of(length as int) / 4096),
        flags & (MAP_FIXED | MAP_FIXED_NOREPLACE) == 0 && r == Err::<u64, ErrorCode>(ErrorCode::EINVAL)
            ==> !old(pt).has_space(tid) || exists|w: u64| #[trigger] old(pt).user_space(tid).blocked(w),
        r matches Ok(a) ==> (!(flags & (MAP_FIXED | MAP_FIXED_NOREPLACE) != 0 && flags & MAP_FIXED_NOREPLACE == 0)
            && old(pt).has_space(tid) && tree_within(old(pt).user_space(tid), old(frames).used()) ==> {
                let m = final(ms).mappings@.last();
                flags_grant(m.flags) && page_floor(a) + m.frame.size <= SV39_SPAN ==> forall|k: int|
                    0 <= k < m.frame.size / 4096 ==> #[trigger] page_mapped(final(pt).user_space(tid), a, m.frame, m.flags, k)
            }),
{
    proof {
        assert(ops@.subrange(0, ops@.len() as int) =~= ops@);
    }
    let ghost s0 = ms.mappings@;
    let ghost pt0 = *pt;
    let ghost f0 = *frames;
    let noreplace = flags & MAP_FIXED_NOREPLACE != 0;
    let fixed = flags & (MAP_FIXED | MAP_FIXED_NOREPLACE) != 0;
    let target = if fixed {
        if addr % 4096 != 0 {
            return Err(ErrorCode::EINVAL);
        }
        addr
    } else if addr != 0 && addr % 4096 == 0 && addr <= u64::MAX - length && range_is_free(ms, addr, addr + length) {
        addr
    } else {
        match find_free_region(ms, length) {
            Some(a) => a,
            None => return Err(ErrorCode::ENOMEM),
        }
    };
    proof {
        if !fixed {
            assert(target_ok(s0, addr, length, false, target));
        }
    }
    if target > u64::MAX - length {
        return Err(ErrorCode::ENOMEM);
    }
    let end = target + length;
    if !is_canonical_user_range(target, end) {
        return Err(ErrorCode::ENOMEM);
    }
    if noreplace && !range_is_free(ms, target, end) {
        return Err(ErrorCode::EEXIST);
    }
    if fixed && !noreplace {
        unmap_range(ms, tid, target, end, pt, frames, ops)?;
    }
    let ghost mid = ms.mappings@;
    let ghost f1 = *frames;
    let ghost pt1 = *pt;
    proof {
        assert forall|x: u64| #[trigger] f0.used().contains(x)
            && !(fixed && !noreplace && overlap_frames(s0, target as int, end as int).contains(x)) implies f1.used().contains(x) by {}
    }
    let frame = match alloc_frame(Some(length), frames) {
        Some(f) => f,
        None => {
            proof {
                assert forall|a: u64| #[trigger] pt.holds_page(a) implies frames.used().contains(a) by {
                    pt.lemma_holds_used(&f1, a);
                }
                pt.lemma_wf_keep(&f1, frames);
                lemma_ms_keep(mid, pt, &f1, pt, frames, Set::<u64>::empty());
            }
            return Err(ErrorCode::ENOMEM);
        },
    };
    proof {
        assert(!pt.holds_page(frame.start)) by {
            if pt.holds_page(frame.start) {
                pt.lemma_holds_used(&f1, frame.start);
            }
        }
        assert forall|a: u64| #[trigger] pt.holds_page(a) implies frames.used().contains(a) by {
            pt.lemma_holds_used(&f1, a);
        }
        pt.lemma_wf_keep(&f1, frames);
        lemma_ms_keep(mid, pt, &f1, pt, frames, Set::<u64>::empty());
        assert forall|i: int| 0 <= i < mid.len() implies (#[trigger] mid[i]).frame.start != frame.start by {
            assert(f1.used().contains(mid[i].frame.start));
        }
        lemma_floor(target);
        vstd::arithmetic::div_mod::lemma_mod_equivalence(frame.start as int, 0, 4096);
    }
    if (target & !0xfffu64) > u64::MAX - frame.size {
        // A block reaching past the top of the address space cannot be
        // mapped at the target.
        proof {
            if !fixed {
                assert(target_ok(s0, addr, length, false, target));
                assert(page_floor(target) + block_of(length as int) > u64::MAX);
            }
        }
        let ghost f2 = *frames;
        frames.dealloc_frame(frame);
        proof {
            assert forall|a: u64| #[trigger] pt.holds_page(a) implies frames.used().contains(a) by {
                pt.lemma_holds_used(&f2, a);
            }
            pt.lemma_wf_keep(&f2, frames);
            assert forall|i: int| 0 <= i < mid.len() implies mapping_ok(#[trigger] mid[i])
                && frames.used().contains(mid[i].frame.start) && !pt.holds_page(mid[i].frame.start) by {
                assert(mid[i].frame.start != frame.start);
            }
        }
        return Err(ErrorCode::ENOMEM);
    }
    let pflags = prot_to_page_flags(prot);
    proof {
        if !(fixed && !noreplace) {
            assert(*pt == pt0);
        }
    }
    map_frame(ms, tid, target, frame, pflags, pt, frames)?;
    ops.push(MemOp::Zero { at: frame.start, len: length });
    proof {
        let t = ms.mappings@;
        assert(ends_with_new(mid, t, target, length, pflags, f1.used()));
        assert(target_ok(s0, addr, length, fixed, target));
    }
    Ok(target)
}


/// The old range can grow in place by `growth` bytes: the bytes after it
/// are free and the grown range stays in a user half.
pub open spec fn grows_in_place(s: Seq<UserMapping>, old_address: u64, old_end: u64, growth: u64) -> bool {
    &&& old_end + growth <= u64::MAX
    &&& spec_range_free(s, old_end as int, old_end + growth)
    &&& spec_canonical(old_address as int, old_end + growth)
}

/// What `mremap` (arguments checked) does to the mappings `s`, giving `t`
/// and `r`.
pub open spec fn mremap_result(s: Seq<UserMapping>, t: Seq<UserMapping>, old_address: u64, old_size: u64, new_size: u64,
    flags: u64, new_address: u64, r: Result<u64, ErrorCode>, before: Set<u64>) -> bool {
    let old_end = (old_address + old_size) as u64;
    let fixed = flags & MREMAP_FIXED != 0;
    let maymove = flags & MREMAP_MAYMOVE != 0;
    let same = new_size == old_size;
    let mapped = spec_fully_mapped(s, old_address as int, old_end as int);
    let in_place = new_size < old_size || grows_in_place(s, old_address, old_end, (new_size - old_size) as u64);
    &&& !mapped ==> r == Err::<u64, ErrorCode>(ErrorCode::EFAULT) && t == s
    &&& mapped && same && !(fixed && new_address != old_address) ==> r == Ok::<u64, ErrorCode>(old_address) && t == s
    &&& mapped && fixed && (same ==> new_address != old_address) && !(!same && in_place)
        && !spec_range_free(s, new_address as int, new_address + new_size) ==> r is Err && t == s
    &&& mapped && same && fixed && new_address != old_address ==> match r {
        Ok(a) => a == new_address && moved(s, t, old_address as int, old_end as int, new_address, old_size, before),
        Err(e) => e == ErrorCode::ENOMEM || e == ErrorCode::EINVAL || e == ErrorCode::EFAULT,
    }
    &&& !same && mapped && !in_place && !fixed && !maymove ==> r == Err::<u64, ErrorCode>(ErrorCode::ENOMEM) && t == s
    &&& !same && mapped ==> match r {
        Ok(a) => if in_place {
            &&& a == old_address
            &&& flags_at(s, old_address as int) is Some
            &&& rebuilt(s, t, old_address as int, old_end as int, old_address, new_size, flags_at(s, old_address as int)->Some_0, before)
        } else if fixed {
            a == new_address && moved(s, t, old_address as int, old_end as int, new_address, new_size, before)
        } else {
            &&& maymove
            &&& is_free_region_of(s, new_size, Some(a))
            &&& moved(s, t, old_address as int, old_end as int, a, new_size, before)
        },
        Err(e) => e == ErrorCode::ENOMEM || e == ErrorCode::EINVAL || e == ErrorCode::EFAULT,
    }
}

/// `dest` can take the `new_size` bytes of `[old_start, old_end)` moved
/// away from `s`: the range fits the address space and a user half, does
/// not meet the old range, is free, and the backing block fits above it.
pub open spec fn move_fits(s: Seq<UserMapping>, old_start: u64, old_end: u64, dest: u64, new_size: u64) -> bool {
    &&& dest + new_size <= u64::MAX
    &&& spec_canonical(dest as int, dest + new_size)
    &&& !(dest < old_end && old_start < dest + new_size)
    &&& spec_range_free(s, dest as int, dest + new_size)
    &&& page_floor(dest) + block_of(new_size as int) <= u64::MAX
}

/// The fully mapped range `[old_address, old_address + old_size)` moves:
/// to a fixed address other than its own, or, when it can change size
/// neither here nor in place, to a fixed address or anywhere.
pub open spec fn mremap_moves(s: Seq<UserMapping>, old_address: u64, old_size: u64, new_size: u64, flags: u64,
    new_address: u64) -> bool {
    let old_end = (old_address + old_size) as u64;
    let fixed = flags & MREMAP_FIXED != 0;
    let maymove = flags & MREMAP_MAYMOVE != 0;
    let in_place = new_size < old_size || grows_in_place(s, old_address, old_end, (new_size - old_size) as u64);
    &&& spec_fully_mapped(s, old_address as int, old_end as int)
    &&& (new_size == old_size && fixed && new_address != old_address)
        || (new_size != old_size && !in_place && (fixed || maymove))
}

/// No target the move may use can take the range: the fixed target does
/// not fit, or the downward scan finds no gap or one that does not fit.
pub open spec fn no_move_target(s: Seq<UserMapping>, old_address: u64, old_size: u64, new_size: u64, flags: u64,
    new_address: u64) -> bool {
    let old_end = (old_address + old_size) as u64;
    if flags & MREMAP_FIXED != 0 {
        !move_fits(s, old_address, old_end, new_address, new_size)
    } else {
        is_free_region_of(s, new_size, None) || exists|d: u64| #[trigger] is_free_region_of(s, new_size, Some(d))
            && !move_fits(s, old_address, old_end, d, new_size)
    }
}

/// A resize of `[old_address, old_address + old_size)` that stays in
/// place: the range is fully mapped and shrinks, or grows into free room.
pub open spec fn in_place_resize(s: Seq<UserMapping>, old_address: u64, old_size: u64, new_size: u64) -> bool {
    let old_end = (old_address + old_size) as u64;
    &&& new_size != old_size
    &&& spec_fully_mapped(s, old_address as int, old_end as int)
    &&& (new_size < old_size || grows_in_place(s, old_address, old_end, (new_size - old_size) as u64))
}

proof fn lemma_flags_of_mapped(s: Seq<UserMapping>, va: int)
    requires
        phys_at(s, va) is Some,
    ensures
        flags_at(s, va) is Some,
    decreases s.len(),
{
    if s.len() > 0 && !(range_of(s[0]).0 <= va < range_of(s[0]).1) {
        lemma_flags_of_mapped(s.drop_first(), va);
    }
}

/// `mremap` (arguments checked) leaves everything as it was on the
/// mappings `s`: the old range is not fully mapped, the size stays with
/// nowhere else to go, the range can neither change in place nor move, or
/// it must move to a fixed target that is not free.
pub open spec fn mremap_idle(s: Seq<UserMapping>, old_address: u64, old_size: u64, new_size: u64, flags: u64,
    new_address: u64) -> bool {
    let old_end = (old_address + old_size) as u64;
    let fixed = flags & MREMAP_FIXED != 0;
    let maymove = flags & MREMAP_MAYMOVE != 0;
    let in_place = new_size < old_size || grows_in_place(s, old_address, old_end, (new_size - old_size) as u64);
    ||| !spec_fully_mapped(s, old_address as int, old_end as int)
    ||| new_size == old_size && !(fixed && new_address != old_address)
    ||| new_size != old_size && !in_place && !fixed && !maymove
    ||| spec_fully_mapped(s, old_address as int, old_end as int) && fixed
        && (new_size == old_size ==> new_address != old_address) && !(new_size != old_size && in_place)
        && !spec_range_free(s, new_address as int, new_address + new_size)
}

/// The part of `mremap` after the arguments are checked and the task is
/// found.
fn mremap_in(
    ms: &mut MemorySet,
    tid: Tid,
    old_address: u64,
    old_size: u64,
    new_size: u64,
    flags: u64,
    new_address: u64,
    pt: &mut PageTableManager,
    frames: &mut FrameAllocator,
    ops: &mut Vec<MemOp>,
) -> (r: Result<u64, ErrorCode>)
    requires
        ms_wf(old(ms).mappings@, old(pt), old(frames)),
        old(pt).wf(old(frames)),
        old(frames).wf(),
        old_size > 0,
        old_address + old_size <= u64::MAX,
    ensures
        final(frames).wf(),
        final(pt).wf(final(frames)),
        ms_wf(final(ms).mappings@, final(pt), final(frames)),
        final(ms).user_root_page_table == old(ms).user_root_page_table,
        mremap_result(old(ms).mappings@, final(ms).mappings@, old_address, old_size, new_size, flags, new_address, r,
            old(frames).used()),
        mremap_idle(old(ms).mappings@, old_address, old_size, new_size, flags, new_address)
            ==> *final(pt) == *old(pt) && *final(frames) == *old(frames) && final(ops)@ == old(ops)@,
        final(ops)@.subrange(0, old(ops)@.len() as int) == old(ops)@,
        final(ops)@.len() >= old(ops)@.len(),
        r matches Ok(a) ==> (final(ms).mappings@ == old(ms).mappings@ && final(ops)@ == old(ops)@)
            || final(ops)@ == old(ops)@ + rebuild_ops(old(ms).mappings@, final(ms).mappings@, old_address as int,
                (old_address + old_size) as int, new_size),
        in_place_resize(old(ms).mappings@, old_address, old_size, new_size) ==> r != Err::<u64, ErrorCode>(ErrorCode::EFAULT),
        in_place_resize(old(ms).mappings@, old_address, old_size, new_size) && r == Err::<u64, ErrorCode>(ErrorCode::ENOMEM)
            ==> !old(frames).can_supply(new_size)
                || keeps_of(old(ms).mappings@, old_address as int, old_address + old_size).len() > 0
                || page_floor(old_address) + block_of(new_size as int) > u64::MAX
                || old(frames).page_count() < 4 * (block_of(new_size as int) / 4096),
        in_place_resize(old(ms).mappings@, old_address, old_size, new_size) && r == Err::<u64, ErrorCode>(ErrorCode::EINVAL)
            ==> keeps_of(old(ms).mappings@, old_address as int, old_address + old_size).len() > 0
                || !old(pt).has_space(tid) || exists|w: u64| #[trigger] old(pt).user_space(tid).blocked(w),
        mremap_moves(old(ms).mappings@, old_address, old_size, new_size, flags, new_address)
            ==> r != Err::<u64, ErrorCode>(ErrorCode::EFAULT),
        mremap_moves(old(ms).mappings@, old_address, old_size, new_size, flags, new_address)
            && r == Err::<u64, ErrorCode>(ErrorCode::ENOMEM)
            ==> no_move_target(old(ms).mappings@, old_address, old_size, new_size, flags, new_address)
                || !old(frames).can_supply(new_size)
                || keeps_of(old(ms).mappings@, old_address as int, old_address + old_size).len() > 0
                || old(frames).page_count() < 4 * (block_of(new_size as int) / 4096),
        mremap_moves(old(ms).mappings@, old_address, old_size, new_size, flags, new_address)
            && r == Err::<u64, ErrorCode>(ErrorCode::EINVAL)
            ==> keeps_of(old(ms).mappings@, old_address as int, old_address + old_size).len() > 0
                || !old(pt).has_space(tid) || exists|w: u64| #[trigger] old(pt).user_space(tid).blocked(w),
{
    proof {
        assert(ops@.subrange(0, ops@.len() as int) =~= ops@);
    }
    let old_end = old_address + old_size;
    let fixed = flags & MREMAP_FIXED != 0;
    if !range_fully_mapped(ms, old_address, old_end) {
        return Err(ErrorCode::EFAULT);
    }
    if new_size == old_size {
        if fixed && new_address != old_address {
            return move_to(ms, tid, old_address, old_end, new_address, old_size, pt, frames, ops);
        }
        return Ok(old_address);
    }
    proof {
        assert(phys_at(ms.mappings@, old_address + 0 * 4096) is Some);
        lemma_flags_of_mapped(ms.mappings@, old_address as int);
    }
    if new_size < old_size {
        let prot_flags = match flags_of_first(ms, old_address) {
            Some(f) => f,
            None => return Err(ErrorCode::EFAULT),
        };
        rebuild(ms, tid, old_address, old_end, old_address, new_size, prot_flags, pt, frames, ops)?;
        return Ok(old_address);
    }
    let growth = new_size - old_size;
    let grow_in_place = old_end <= u64::MAX - growth && range_is_free(ms, old_end, old_end + growth)
        && is_canonical_user_range(old_address, old_end + growth);
    if grow_in_place {
        let prot_flags = match flags_of_first(ms, old_address) {
            Some(f) => f,
            None => return Err(ErrorCode::EFAULT),
        };
        rebuild(ms, tid, old_address, old_end, old_address, new_size, prot_flags, pt, frames, ops)?;
        return Ok(old_address);
    }
    if fixed {
        return move_to(ms, tid, old_address, old_end, new_address, new_size, pt, frames, ops);
    }
    if flags & MREMAP_MAYMOVE != 0 {
        let dest = match find_free_region(ms, new_size) {
            Some(d) => d,
            None => return Err(ErrorCode::ENOMEM),
        };
        return move_to(ms, tid, old_address, old_end, dest, new_size, pt, frames, ops);
    }
    Err(ErrorCode::ENOMEM)
}


/// Task `tid`'s memory set is sound in the page tables and frames.
pub open spec fn task_ms_ok(s: Seq<(Tid, TaskControlBlock)>, tid: Tid, pt: &PageTableManager, frames: &FrameAllocator) -> bool {
    has_tid(s, tid) ==> ms_wf(tcb_of(s, tid).memory_set.mappings@, pt, frames)
}

proof fn lemma_put_back(s0: Seq<(Tid, TaskControlBlock)>, s1: Seq<(Tid, TaskControlBlock)>, i: int, tcb0: TaskControlBlock,
    tcb1: TaskControlBlock)
    requires
        tids_sorted(s0),
        0 <= i < s0.len(),
        s0[i].1 == tcb0,
        s1 == s0.update(i, (s0[i].0, tcb1)),
        tcb1.parent == tcb0.parent && tcb1.status == tcb0.status && tcb1.exit_code == tcb0.exit_code,
        tcb1.priority == tcb0.priority && tcb1.trap_context == tcb0.trap_context,
        tcb1.children@ == tcb0.children@,
        tcb1.memory_set.user_root_page_table == tcb0.memory_set.user_root_page_table,
    ensures
        tids_sorted(s1),
        ms_updated(s0, s1, s0[i].0),
        tcb_of(s1, s0[i].0) == tcb1,
        tcb_of(s0, s0[i].0) == tcb0,
        has_tid(s1, s0[i].0),
{
    assert forall|a: int, b: int| 0 <= a < b < s1.len() implies (#[trigger] s1[a]).0.0 < (#[trigger] s1[b]).0.0 by {
        assert(s1[a].0 == s0[a].0 && s1[b].0 == s0[b].0);
    }
    lemma_index_of(s0, i);
    lemma_index_of(s1, i);
    assert forall|k: int| 0 <= k < s0.len() && s0[k].0 == s0[i].0 implies k == i by {
        if k < i { assert(s0[k].0.0 < s0[i].0.0); } else if k > i { assert(s0[i].0.0 < s0[k].0.0); }
    }
}

/// The arguments of `mmap` are acceptable: an anonymous mapping with no
/// file offset, known protection bits and a length that can be rounded
/// up to pages.
pub open spec fn mmap_args_ok(length: u64, prot: u64, flags: u64, fd: i64, offset: u64) -> bool {
    flags & MAP_ANONYMOUS != 0 && fd == -1 && offset == 0 && prot & !PROT_MASK == 0 && 0 < length < u64::MAX - 4096
}

/// The arguments of `munmap` are acceptable: a page-aligned start and a
/// non-empty range that does not wrap.
pub open spec fn munmap_args_ok(addr: u64, length: u64) -> bool {
    addr % 4096 == 0 && length != 0 && addr + length <= u64::MAX
}

/// The arguments of `mremap` are acceptable: page-aligned, non-empty
/// sizes and addresses, a range that does not wrap, and a page-aligned
/// `new_address` with `MREMAP_FIXED`.
pub open spec fn mremap_args_ok(old_address: u64, old_size: u64, new_size: u64, flags: u64, new_address: u64) -> bool {
    old_address % 4096 == 0 && old_size != 0 && new_size != 0 && old_size % 4096 == 0
        && new_size % 4096 == 0 && new_size < u64::MAX - 4096 && old_address + old_size <= u64::MAX
        && (flags & MREMAP_FIXED != 0 ==> new_address % 4096 == 0)
}

/// The effect of `mmap` on the task table: `s0` before, `s1` after,
/// `before` the blocks in use before, `r` the result.
pub open spec fn mmap_post(tid: Tid, addr: u64, length: u64, prot: u64, flags: u64, fd: i64, offset: u64, s0: Seq<(Tid, TaskControlBlock)>, s1: Seq<(Tid, TaskControlBlock)>, before: Set<u64>, r: Result<u64, ErrorCode>) -> bool {
    &&& flags & MAP_ANONYMOUS == 0 ==> r == Err::<u64, ErrorCode>(ErrorCode::ENOSYS)
    &&& flags & MAP_ANONYMOUS != 0 && (fd != -1 || offset != 0) ==> r == Err::<u64, ErrorCode>(ErrorCode::EINVAL)
    &&& flags & MAP_ANONYMOUS != 0 && fd == -1 && offset == 0 && prot & !PROT_MASK != 0
        ==> r == Err::<u64, ErrorCode>(ErrorCode::EINVAL)
    &&& flags & MAP_ANONYMOUS != 0 && fd == -1 && offset == 0 && prot & !PROT_MASK == 0
        && (length == 0 || length >= u64::MAX - 4096) ==> r == Err::<u64, ErrorCode>(ErrorCode::EINVAL)
    &&& ({
        let ok_args = mmap_args_ok(length, prot, flags, fd, offset);
        &&& !ok_args ==> s1 == s0
        &&& ok_args && !has_tid(s0, tid) ==> r == Err::<u64, ErrorCode>(ErrorCode::ESRCH)
            && s1 == s0
        &&& ok_args && has_tid(s0, tid) ==> mmap_result(
            tcb_of(s0, tid).memory_set.mappings@, tcb_of(s1, tid).memory_set.mappings@,
            addr, page_ceil(length as int) as u64, prot, flags, r, before)
    })
}

/// `mmap(addr, length, prot, flags, fd, offset)` for task `tid`: only
/// anonymous mappings (`fd == -1`, `offset == 0`); returns the start of
/// the new mapping.
pub fn mmap(
    tid: Tid,
    addr: u64,
    length: u64,
    prot: u64,
    flags: u64,
    fd: i64,
    offset: u64,
    tasks: &mut Tasks,
    pt: &mut PageTableManager,
    frames: &mut FrameAllocator,
    ops: &mut Vec<MemOp>,
) -> (r: Result<u64, ErrorCode>)
    requires
        tids_sorted(old(tasks).entries()),
        old(pt).wf(old(frames)),
        old(frames).wf(),
        task_ms_ok(old(tasks).entries(), tid, old(pt), old(frames)),
    ensures
        final(frames).wf(),
        final(pt).wf(final(frames)),
        tids_sorted(final(tasks).entries()),
        final(tasks).last() == old(tasks).last(),
        ms_updated(old(tasks).entries(), final(tasks).entries(), tid),
        task_ms_ok(final(tasks).entries(), tid, final(pt), final(frames)),
        mmap_post(tid, addr, length, prot, flags, fd, offset, old(tasks).entries(), final(tasks).entries(), old(frames).used(), r),
        !mmap_args_ok(length, prot, flags, fd, offset) || !has_tid(old(tasks).entries(), tid)
            || (flags & (MAP_FIXED | MAP_FIXED_NOREPLACE) != 0 && addr % 4096 != 0)
            || r == Err::<u64, ErrorCode>(ErrorCode::EEXIST)
            ==> *final(pt) == *old(pt) && *final(frames) == *old(frames) && final(ops)@ == old(ops)@,
        final(ops)@.subrange(0, old(ops)@.len() as int) == old(ops)@,
        final(ops)@.len() >= old(ops)@.len(),
        r is Ok ==> final(ops)@.len() > old(ops)@.len() && final(ops)@.last() == (MemOp::Zero {
            at: tcb_of(final(tasks).entries(), tid).memory_set.mappings@.last().frame.start,
            len: page_ceil(length as int) as u64 }),
        mmap_args_ok(length, prot, flags, fd, offset) && has_tid(old(tasks).entries(), tid)
            && flags & (MAP_FIXED | MAP_FIXED_NOREPLACE) == 0 && r == Err::<u64, ErrorCode>(ErrorCode::ENOMEM) ==> {
                let len = page_ceil(length as int) as u64;
                ||| mmap_no_room(tcb_of(old(tasks).entries(), tid).memory_set.mappings@, addr, len)
                ||| !old(frames).can_supply(len)
                ||| old(frames).page_count() < 4 * (block_of(len as int) / 4096)
            },
        mmap_args_ok(length, prot, flags, fd, offset) && has_tid(old(tasks).entries(), tid)
            && flags & (MAP_FIXED | MAP_FIXED_NOREPLACE) == 0 && r == Err::<u64, ErrorCode>(ErrorCode::EINVAL)
            ==> !old(pt).has_space(tid) || exists|w: u64| #[trigger] old(pt).user_space(tid).blocked(w),
        r matches Ok(a) ==> (!(flags & (MAP_FIXED | MAP_FIXED_NOREPLACE) != 0 && flags & MAP_FIXED_NOREPLACE == 0)
            && old(pt).has_space(tid) && tree_within(old(pt).user_space(tid), old(frames).used()) ==> {
                let m = tcb_of(final(tasks).entries(), tid).memory_set.mappings@.last();
                flags_grant(m.flags) && page_floor(a) + m.frame.size <= SV39_SPAN ==> forall|k: int|
                    0 <= k < m.frame.size / 4096 ==> #[trigger] page_mapped(final(pt).user_space(tid), a, m.frame, m.flags, k)
            }),
{
    proof {
        assert(ops@.subrange(0, ops@.len() as int) =~= ops@);
    }
    if flags & MAP_ANONYMOUS == 0 {
        return Err(ErrorCode::ENOSYS);
    }
    if fd != -1 || offset != 0 {
        return Err(ErrorCode::EINVAL);
    }
    if prot & !PROT_MASK != 0 {
        return Err(ErrorCode::EINVAL);
    }
    if length == 0 || length >= u64::MAX - 4096 {
        return Err(ErrorCode::EINVAL);
    }
    let length = align_up(length);
    let i = match tasks.find(tid) {
        Some(i) => i,
        None => return Err(ErrorCode::ESRCH),
    };
    let ghost s0 = tasks.entries();
    let (t, mut tcb) = tasks.take_at(i);
    let ghost tcb0 = tcb;
    proof {
        assert(s0[i as int] == (t, tcb0));
    }
    let r = mmap_in(&mut tcb.memory_set, tid, addr, length, prot, flags, pt, frames, ops);
    tasks.put_at(i, (t, tcb));
    proof {
        assert(tasks.entries() =~= s0.update(i as int, (t, tcb)));
        lemma_put_back(s0, tasks.entries(), i as int, tcb0, tcb);
    }
    r
}

/// The effect of `munmap` on the task table: `s0` before, `s1` after,
/// `before` the blocks in use before, `r` the result.
pub open spec fn munmap_post(tid: Tid, addr: u64, length: u64, s0: Seq<(Tid, TaskControlBlock)>, s1: Seq<(Tid, TaskControlBlock)>, before: Set<u64>, r: Result<(), ErrorCode>) -> bool {
    &&& ({
        let ok_args = munmap_args_ok(addr, length);
        &&& !ok_args ==> r == Err::<(), ErrorCode>(ErrorCode::EINVAL) && s1 == s0
        &&& ok_args && !has_tid(s0, tid) ==> r == Err::<(), ErrorCode>(ErrorCode::ESRCH)
            && s1 == s0
        &&& ok_args && has_tid(s0, tid) ==> {
            let s = tcb_of(s0, tid).memory_set.mappings@;
            let t = tcb_of(s1, tid).memory_set.mappings@;
            &&& match r {
                Ok(()) => unmapped_as(s, t, addr as int, addr + length, before),
                Err(e) => e == ErrorCode::ENOMEM || e == ErrorCode::EINVAL,
            }
            &&& keeps_of(s, addr as int, addr + length).len() == 0 ==> r is Ok
        }
    })
}

/// A successful `munmap` of whole pages leaves every page outside the
/// range that a cut mapping covered mapped at the same address.
pub proof fn lemma_munmap_keeps_outside(tid: Tid, addr: u64, length: u64, s0: Seq<(Tid, TaskControlBlock)>,
    s1: Seq<(Tid, TaskControlBlock)>, before: Set<u64>, r: Result<(), ErrorCode>, i: int, va: int)
    requires
        munmap_post(tid, addr, length, s0, s1, before, r),
        r is Ok,
        has_tid(s0, tid),
        length % 4096 == 0,
        0 <= i < tcb_of(s0, tid).memory_set.mappings@.len(),
        mapping_ok(tcb_of(s0, tid).memory_set.mappings@[i]),
        spec_overlaps(tcb_of(s0, tid).memory_set.mappings@[i], addr as int, addr + length),
        range_of(tcb_of(s0, tid).memory_set.mappings@[i]).0 <= va < range_of(tcb_of(s0, tid).memory_set.mappings@[i]).1,
        va < addr || addr + length <= va,
    ensures
        phys_at(tcb_of(s1, tid).memory_set.mappings@, va) is Some,
{
    lemma_unmap_keeps_outside(tcb_of(s0, tid).memory_set.mappings@, tcb_of(s1, tid).memory_set.mappings@,
        addr as int, addr + length, before, i, va);
}

/// `munmap(addr, length)` for task `tid`: unmaps `[addr, addr + length)`;
/// unmapping an unmapped range succeeds and changes nothing.
pub fn munmap(
    tid: Tid,
    addr: u64,
    length: u64,
    tasks: &mut Tasks,
    pt: &mut PageTableManager,
    frames: &mut FrameAllocator,
    ops: &mut Vec<MemOp>,
) -> (r: Result<(), ErrorCode>)
    requires
        tids_sorted(old(tasks).entries()),
        old(pt).wf(old(frames)),
        old(frames).wf(),
        task_ms_ok(old(tasks).entries(), tid, old(pt), old(frames)),
    ensures
        final(frames).wf(),
        final(pt).wf(final(frames)),
        tids_sorted(final(tasks).entries()),
        final(tasks).last() == old(tasks).last(),
        ms_updated(old(tasks).entries(), final(tasks).entries(), tid),
        task_ms_ok(final(tasks).entries(), tid, final(pt), final(frames)),
        munmap_post(tid, addr, length, old(tasks).entries(), final(tasks).entries(), old(frames).used(), r),
        !munmap_args_ok(addr, length) || !has_tid(old(tasks).entries(), tid)
            ==> *final(pt) == *old(pt) && *final(frames) == *old(frames) && final(ops)@ == old(ops)@,
        final(ops)@.subrange(0, old(ops)@.len() as int) == old(ops)@,
        final(ops)@.len() >= old(ops)@.len(),
        r is Ok ==> {
            let s = tcb_of(old(tasks).entries(), tid).memory_set.mappings@;
            let t = tcb_of(final(tasks).entries(), tid).memory_set.mappings@;
            let ks = keeps_of(s, addr as int, addr + length);
            final(ops)@ == old(ops)@ + piece_copies(ks, t, t.len() - ks.len())
        },
        munmap_args_ok(addr, length) && has_tid(old(tasks).entries(), tid) && old(pt).has_space(tid) ==> {
            let s = tcb_of(old(tasks).entries(), tid).memory_set.mappings@;
            keeps_of(s, addr as int, addr + length).len() == 0 ==> forall|i: int| 0 <= i < s.len()
                && spec_overlaps(s[i], addr as int, addr + length) ==> #[trigger] pages_unmapped(final(pt).user_space(tid), s[i])
        },
{
    proof {
        assert(ops@.subrange(0, ops@.len() as int) =~= ops@);
    }
    if addr % 4096 != 0 || length == 0 {
        return Err(ErrorCode::EINVAL);
    }
    if addr > u64::MAX - length {
        return Err(ErrorCode::EINVAL);
    }
    let end = addr + length;
    let i = match tasks.find(tid) {
        Some(i) => i,
        None => return Err(ErrorCode::ESRCH),
    };
    let ghost s0 = tasks.entries();
    let (t, mut tcb) = tasks.take_at(i);
    let ghost tcb0 = tcb;
    proof {
        assert(s0[i as int] == (t, tcb0));
    }
    let r = unmap_range(&mut tcb.memory_set, tid, addr, end, pt, frames, ops);
    tasks.put_at(i, (t, tcb));
    proof {
        assert(tasks.entries() =~= s0.update(i as int, (t, tcb)));
        lemma_put_back(s0, tasks.entries(), i as int, tcb0, tcb);
    }
    r
}

/// The effect of `mremap` on the task table: `s0` before, `s1` after,
/// `before` the blocks in use before, `r` the result.
pub open spec fn mremap_post(tid: Tid, old_address: u64, old_size: u64, new_size: u64, flags: u64, new_address: u64, s0: Seq<(Tid, TaskControlBlock)>, s1: Seq<(Tid, TaskControlBlock)>, before: Set<u64>, r: Result<u64, ErrorCode>) -> bool {
    &&& ({
        let ok_args = mremap_args_ok(old_address, old_size, new_size, flags, new_address);
        &&& !ok_args ==> r == Err::<u64, ErrorCode>(ErrorCode::EINVAL) && s1 == s0
        &&& ok_args && !has_tid(s0, tid) ==> r == Err::<u64, ErrorCode>(ErrorCode::ESRCH)
            && s1 == s0
        &&& ok_args && has_tid(s0, tid) ==> mremap_result(
            tcb_of(s0, tid).memory_set.mappings@, tcb_of(s1, tid).memory_set.mappings@,
            old_address, old_size, new_size, flags, new_address, r, before)
    })
}

/// `mremap(old_address, old_size, new_size, flags, new_address)` for task
/// `tid`: shrinks or grows the mapping in place, or moves it
/// (`MREMAP_MAYMOVE` below the user stack, `MREMAP_FIXED` to
/// `new_address`); returns the new start.
pub fn mremap(
    tid: Tid,
    old_address: u64,
    old_size: u64,
    new_size: u64,
    flags: u64,
    new_address: u64,
    tasks: &mut Tasks,
    pt: &mut PageTableManager,
    frames: &mut FrameAllocator,
    ops: &mut Vec<MemOp>,
) -> (r: Result<u64, ErrorCode>)
    requires
        tids_sorted(old(tasks).entries()),
        old(pt).wf(old(frames)),
        old(frames).wf(),
        task_ms_ok(old(tasks).entries(), tid, old(pt), old(frames)),
    ensures
        final(frames).wf(),
        final(pt).wf(final(frames)),
        tids_sorted(final(tasks).entries()),
        final(tasks).last() == old(tasks).last(),
        ms_updated(old(tasks).entries(), final(tasks).entries(), tid),
        task_ms_ok(final(tasks).entries(), tid, final(pt), final(frames)),
        mremap_post(tid, old_address, old_size, new_size, flags, new_address, old(tasks).entries(), final(tasks).entries(), old(frames).used(), r),
        !mremap_args_ok(old_address, old_size, new_size, flags, new_address) || !has_tid(old(tasks).entries(), tid)
            || mremap_idle(tcb_of(old(tasks).entries(), tid).memory_set.mappings@, old_address, old_size, new_size, flags,
                new_address)
            ==> *final(pt) == *old(pt) && *final(frames) == *old(frames) && final(ops)@ == old(ops)@,
        final(ops)@.subrange(0, old(ops)@.len() as int) == old(ops)@,
        final(ops)@.len() >= old(ops)@.len(),
        r is Ok ==> {
            let s = tcb_of(old(tasks).entries(), tid).memory_set.mappings@;
            let t = tcb_of(final(tasks).entries(), tid).memory_set.mappings@;
            (t == s && final(ops)@ == old(ops)@)
                || final(ops)@ == old(ops)@ + rebuild_ops(s, t, old_address as int, old_address + old_size, new_size)
        },
        mremap_args_ok(old_address, old_size, new_size, flags, new_address) && has_tid(old(tasks).entries(), tid)
            && in_place_resize(tcb_of(old(tasks).entries(), tid).memory_set.mappings@, old_address, old_size, new_size) ==> {
                let s = tcb_of(old(tasks).entries(), tid).memory_set.mappings@;
                &&& r != Err::<u64, ErrorCode>(ErrorCode::EFAULT)
                &&& r == Err::<u64, ErrorCode>(ErrorCode::ENOMEM) ==> !old(frames).can_supply(new_size)
                    || keeps_of(s, old_address as int, old_address + old_size).len() > 0
                    || page_floor(old_address) + block_of(new_size as int) > u64::MAX
                    || old(frames).page_count() < 4 * (block_of(new_size as int) / 4096)
                &&& r == Err::<u64, ErrorCode>(ErrorCode::EINVAL) ==> keeps_of(s, old_address as int, old_address + old_size).len() > 0
                    || !old(pt).has_space(tid) || exists|w: u64| #[trigger] old(pt).user_space(tid).blocked(w)
            },
        mremap_args_ok(old_address, old_size, new_size, flags, new_address) && has_tid(old(tasks).entries(), tid)
            && mremap_moves(tcb_of(old(tasks).entries(), tid).memory_set.mappings@, old_address, old_size, new_size, flags,
                new_address) ==> {
                let s = tcb_of(old(tasks).entries(), tid).memory_set.mappings@;
                &&& r != Err::<u64, ErrorCode>(ErrorCode::EFAULT)
                &&& r == Err::<u64, ErrorCode>(ErrorCode::ENOMEM) ==> no_move_target(s, old_address, old_size, new_size, flags,
                        new_address)
                    || !old(frames).can_supply(new_size)
                    || keeps_of(s, old_address as int, old_address + old_size).len() > 0
                    || old(frames).page_count() < 4 * (block_of(new_size as int) / 4096)
                &&& r == Err::<u64, ErrorCode>(ErrorCode::EINVAL) ==> keeps_of(s, old_address as int, old_address + old_size).len() > 0
                    || !old(pt).has_space(tid) || exists|w: u64| #[trigger] old(pt).user_space(tid).blocked(w)
            },
{
    proof {
        assert(ops@.subrange(0, ops@.len() as int) =~= ops@);
    }
    if old_address % 4096 != 0 || old_size == 0 || new_size == 0 || old_size % 4096 != 0 || new_size % 4096 != 0
        || new_size >= u64::MAX - 4096 {
        return Err(ErrorCode::EINVAL);
    }
    if old_address > u64::MAX - old_size {
        return Err(ErrorCode::EINVAL);
    }
    let fixed = flags & MREMAP_FIXED != 0;
    if fixed && new_address % 4096 != 0 {
        return Err(ErrorCode::EINVAL);
    }
    let i = match tasks.find(tid) {
        Some(i) => i,
        None => return Err(ErrorCode::ESRCH),
    };
    let ghost s0 = tasks.entries();
    let (t, mut tcb) = tasks.take_at(i);
    let ghost tcb0 = tcb;
    proof {
        assert(s0[i as int] == (t, tcb0));
    }
    let r = mremap_in(&mut tcb.memory_set, tid, old_address, old_size, new_size, flags, new_address, pt, frames, ops);
    tasks.put_at(i, (t, tcb));
    proof {
        assert(tasks.entries() =~= s0.update(i as int, (t, tcb)));
        lemma_put_back(s0, tasks.entries(), i as int, tcb0, tcb);
    }
    r
}

} // verus!
