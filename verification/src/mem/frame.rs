//! Physical page frames and the frame allocator that hands them out.
//!
//! Blocks are power-of-two multiples of the page size.  Returned blocks go
//! onto a free list and are reused for requests of the same block size;
//! otherwise new blocks are carved, size-aligned, from the managed range.
use vstd::prelude::*;

verus! {

/// Size of a base page in bytes.
pub const FRAME_SIZE: u64 = 4096;

/// Upper bound of the physical address space (Sv39 physical addresses
/// have 56 bits).
pub const MAX_PHYS: u64 = 0x100_0000_0000_0000;

/// A physical memory block handed out by the [`FrameAllocator`].
#[derive(Clone, Copy, Debug, PartialEq, Eq, Structural)]
pub struct Frame {
    /// Physical start address.
    pub start: u64,
    /// Block size in bytes.
    pub size: u64,
}

impl Frame {
    /// The start address, as a raw pointer-sized value.
    pub fn as_ptr(&self) -> (r: u64)
        ensures
            r == self.start,
    {
        self.start
    }
}

/// A block size is a power-of-two multiple of the page size.
pub open spec fn is_block_size(size: nat) -> bool {
    exists|k: nat| k <= 40 && size == FRAME_SIZE * vstd::arithmetic::power2::pow2(k)
}

/// The block size used for a request of `size` bytes: the smallest
/// power-of-two multiple of the page size that holds `size` bytes.
pub open spec fn spec_block_size(size: nat, block: nat) -> bool {
    &&& block >= size
    &&& block % FRAME_SIZE as nat == 0
    &&& block >= FRAME_SIZE
    &&& (block == FRAME_SIZE || block / 2 < size)
}

/// The first of `b`, `2b`, `4b`, ... that holds `size` bytes.
pub open spec fn block_from(size: int, b: int) -> int
    decreases (if b <= 0 || b >= size { 0 } else { size - b }),
{
    if b <= 0 || b >= size { b } else { block_from(size, 2 * b) }
}

/// The block size of a request of `size` bytes: the smallest power-of-two
/// multiple of the page size that holds it.
pub open spec fn block_of(size: int) -> int {
    block_from(size, FRAME_SIZE as int)
}

/// Round a request up to its block size (`None` when that overflows
/// the 40-bit block limit).
pub fn block_size_for(size: u64) -> (r: Option<u64>)
    ensures
        match r {
            Some(b) => spec_block_size(size as nat, b as nat) && b <= 0x100_0000_0000 && b == block_of(size as int),
            None => size > 0x100_0000_0000,
        },
{
    let mut b: u64 = FRAME_SIZE;
    let ghost mut k: nat = 0;
    proof {
        vstd::arithmetic::power2::lemma2_to64();
    }
    while b < size
        invariant
            b >= FRAME_SIZE,
            b % FRAME_SIZE == 0,
            b == FRAME_SIZE || b / 2 < size,
            b <= 0x100_0000_0000,
            b == FRAME_SIZE * vstd::arithmetic::power2::pow2(k),
            block_from(size as int, b as int) == block_of(size as int),
        decreases 0x200_0000_0000 - b,
    {
        if b > 0x80_0000_0000 {
            proof {
                vstd::arithmetic::power2::lemma2_to64();
                vstd::arithmetic::power2::lemma2_to64_rest();
                if k < 28 {
                    if k < 27 {
                        vstd::arithmetic::power2::lemma_pow2_strictly_increases(k, 27);
                    }
                    assert(vstd::arithmetic::power2::pow2(27) == 0x800_0000);
                    assert(false);
                }
                if k > 28 {
                    vstd::arithmetic::power2::lemma_pow2_strictly_increases(28, k);
                    assert(vstd::arithmetic::power2::pow2(28) == 0x1000_0000);
                }
                assert(vstd::arithmetic::power2::pow2(28) == 0x1000_0000);
            }
            return None;
        }
        proof {
            vstd::arithmetic::power2::lemma_pow2_unfold(k + 1);
            k = k + 1;
        }
        b = b * 2;
    }
    Some(b)
}

/// `x` rounded up to a multiple of `b`.
pub open spec fn aligned_up(x: int, b: int) -> int {
    if x % b == 0 { x } else { x + (b - x % b) }
}

/// Number of single-page blocks in `s`.
pub open spec fn pages_in(s: Seq<Frame>) -> nat
    decreases s.len(),
{
    if s.len() == 0 {
        0
    } else {
        pages_in(s.drop_last()) + if s.last().size == FRAME_SIZE { 1nat } else { 0nat }
    }
}

proof fn lemma_pages_in_concat(a: Seq<Frame>, b: Seq<Frame>)
    ensures
        pages_in(a + b) == pages_in(a) + pages_in(b),
    decreases b.len(),
{
    if b.len() > 0 {
        lemma_pages_in_concat(a, b.drop_last());
        assert((a + b).drop_last() =~= a + b.drop_last());
    } else {
        assert(a + b =~= a);
    }
}

proof fn lemma_pages_in_remove(s: Seq<Frame>, i: int)
    requires
        0 <= i < s.len(),
    ensures
        pages_in(s) == pages_in(s.remove(i)) + if s[i].size == FRAME_SIZE { 1nat } else { 0nat },
{
    let a = s.subrange(0, i);
    let b = s.subrange(i + 1, s.len() as int);
    assert(s =~= a + (seq![s[i]] + b));
    assert(s.remove(i) =~= a + b);
    lemma_pages_in_concat(a, seq![s[i]] + b);
    lemma_pages_in_concat(seq![s[i]], b);
    lemma_pages_in_concat(a, b);
    assert(seq![s[i]].drop_last() =~= Seq::<Frame>::empty());
    assert(pages_in(Seq::<Frame>::empty()) == 0);
    assert(pages_in(seq![s[i]]) == if s[i].size == FRAME_SIZE { 1nat } else { 0nat });
}

proof fn lemma_pages_in_none(s: Seq<Frame>)
    requires
        forall|j: int| 0 <= j < s.len() ==> (#[trigger] s[j]).size != FRAME_SIZE,
    ensures
        pages_in(s) == 0,
    decreases s.len(),
{
    if s.len() > 0 {
        assert forall|j: int| 0 <= j < s.drop_last().len() implies (#[trigger] s.drop_last()[j]).size != FRAME_SIZE by {
            assert(s.drop_last()[j] == s[j]);
        }
        lemma_pages_in_none(s.drop_last());
    }
}

/// The frame allocator: a bump region `[next, end)` plus a free list of
/// returned blocks.
pub struct FrameAllocator {
    next: u64,
    end: u64,
    free: Vec<Frame>,
    /// Start addresses of the blocks currently handed out.
    used: Ghost<Set<u64>>,
}

impl FrameAllocator {
    /// Start addresses of the blocks currently handed out.
    pub closed spec fn used(&self) -> Set<u64> {
        self.used@
    }

    /// Internal consistency: returned blocks are distinct, not in use, and
    /// lie below the bump pointer, as do all blocks in use.
    pub closed spec fn wf(&self) -> bool {
        &&& self.next <= self.end
        &&& self.end <= MAX_PHYS
        &&& self.next % FRAME_SIZE == 0
        &&& forall|i: int| 0 <= i < self.free@.len() ==> (#[trigger] self.free@[i]).start % FRAME_SIZE == 0
        &&& forall|u: u64| self.used@.contains(u) ==> u < self.next
        &&& forall|i: int| 0 <= i < self.free@.len() ==>
            !self.used@.contains(#[trigger] self.free@[i].start) && self.free@[i].start < self.next
        &&& forall|i: int, j: int| 0 <= i < j < self.free@.len() ==>
            self.free@[i].start != self.free@[j].start
    }

    /// A request of `size` bytes can be met: its block size is at most
    /// 2^40 bytes, and a returned block of that size is on the free list
    /// or one fits, size-aligned, between the bump pointer and the end of
    /// the range.
    pub closed spec fn can_supply(&self, size: u64) -> bool {
        let b = block_of(size as int);
        &&& size <= 0x100_0000_0000
        &&& (exists|i: int| 0 <= i < self.free@.len() && #[trigger] self.free@[i].size == b)
            || aligned_up(self.next as int, b) + b <= self.end
    }

    /// Single pages the allocator can still hand out: returned one-page
    /// blocks plus the whole pages left in the bump region.
    pub closed spec fn page_count(&self) -> nat {
        pages_in(self.free@) + ((self.end - self.next) / FRAME_SIZE as int) as nat
    }

    /// A returned block of the block size of a `size`-byte request lies on
    /// the free list and reaches past the physical address limit.
    pub closed spec fn reuses_beyond(&self, size: u64) -> bool {
        exists|i: int| 0 <= i < self.free@.len() && #[trigger] self.free@[i].size == block_of(size as int)
            && self.free@[i].start + self.free@[i].size > MAX_PHYS
    }

    /// An allocator managing the physical range `[start, end)`.
    pub fn new(start: u64, end: u64) -> (r: Self)
        requires
            start <= end <= MAX_PHYS,
            start % FRAME_SIZE == 0,
        ensures
            r.wf(),
            r.used() == Set::<u64>::empty(),
    {
        FrameAllocator { next: start, end, free: Vec::new(), used: Ghost(Set::empty()) }
    }

    /// Hands out a block of at least `size` bytes; `None` when the range is
    /// exhausted.  The block is fresh: it is not among the blocks in use.
    pub fn alloc_frame(&mut self, size: u64) -> (r: Option<Frame>)
        requires
            old(self).wf(),
        ensures
            final(self).wf(),
            match r {
                Some(f) => {
                    &&& spec_block_size(size as nat, f.size as nat)
                    &&& f.size <= 0x100_0000_0000
                    &&& f.start % FRAME_SIZE == 0
                    &&& f.start < MAX_PHYS
                    &&& !old(self).used().contains(f.start)
                    &&& final(self).used() == old(self).used().insert(f.start)
                    &&& f.size == block_of(size as int)
                    &&& (f.start + f.size <= MAX_PHYS || old(self).reuses_beyond(size))
                },
                None => final(self).used() == old(self).used() && !old(self).can_supply(size),
            },
            size <= FRAME_SIZE ==> (r is Some <==> old(self).page_count() > 0),
            size <= FRAME_SIZE && r is Some ==> final(self).page_count() + 1 == old(self).page_count(),
            r is None ==> final(self).page_count() == old(self).page_count(),
            r matches Some(f) ==> final(self).page_count() + 2 * (f.size as int / FRAME_SIZE as int) >= old(self).page_count(),
    {
        let block = match block_size_for(size) {
            Some(b) => b,
            None => return None,
        };
        let mut i: usize = 0;
        while i < self.free.len()
            invariant
                self.wf(),
                self.used@ == old(self).used@,
                0 <= i <= self.free@.len(),
                spec_block_size(size as nat, block as nat),
                block <= 0x100_0000_0000,
                block == block_of(size as int),
                self.next == old(self).next,
                self.end == old(self).end,
                self.free@ == old(self).free@,
                forall|j: int| 0 <= j < i ==> (#[trigger] self.free@[j]).size != block,
            decreases self.free@.len() - i,
        {
            if self.free[i].size == block {
                let ghost before = self.free@;
                let f = self.free.remove(i);
                proof {
                    lemma_pages_in_remove(before, i as int);
                    assert(self.free@ == before.remove(i as int));
                    assert(f == before[i as int]);
                    assert(f.size == block);
                    assert(old(self).free@[i as int] == f);
                    assert(!self.used@.contains(f.start));
                    self.used@ = self.used@.insert(f.start);
                    assert forall|j: int| 0 <= j < self.free@.len() implies
                        !self.used@.contains(#[trigger] self.free@[j].start)
                        && self.free@[j].start < self.next by {
                        if j < i {
                            assert(old(self).free@.len() >= 0);
                        }
                    }
                }
                return Some(f);
            }
            i = i + 1;
        }
        proof {
            if size <= FRAME_SIZE {
                assert(block == FRAME_SIZE);
                lemma_pages_in_none(self.free@);
            }
        }
        let start = self.next;
        let rem = start % block;
        let aligned = if rem == 0 { start } else {
            if start > u64::MAX - (block - rem) {
                return None;
            }
            start + (block - rem)
        };
        if aligned > self.end || self.end - aligned < block {
            proof {
                if size <= FRAME_SIZE {
                    assert(aligned == start);
                    assert((self.end - start) / FRAME_SIZE as int == 0);
                }
            }
            return None;
        }
        let f = Frame { start: aligned, size: block };
        proof {
            assert(aligned % block == 0) by (nonlinear_arith)
                requires block > 0, rem == start % block,
                    aligned == (if rem == 0 { start as int } else { start + (block - rem) });
            let q = aligned / block;
            let m = block / FRAME_SIZE;
            assert(aligned == q * block) by (nonlinear_arith)
                requires aligned % block == 0, block > 0, q == aligned / block;
            assert(block == m * 4096) by (nonlinear_arith)
                requires block % 4096 == 0, m == block / 4096;
            assert(aligned == (q * m) * 4096) by (nonlinear_arith)
                requires aligned == q * block, block == m * 4096;
            vstd::arithmetic::div_mod::lemma_mod_multiples_basic((q * m) as int, 4096);
            assert((aligned + block) % (FRAME_SIZE as int) == 0) by (nonlinear_arith)
                requires aligned % FRAME_SIZE == 0, block % FRAME_SIZE == 0;
            self.used@ = self.used@.insert(aligned);
            assert(aligned < start + block);
            assert(((self.end - start) / FRAME_SIZE as int) <= ((self.end - (aligned + block)) / FRAME_SIZE as int)
                + 2 * (block as int / FRAME_SIZE as int)) by (nonlinear_arith)
                requires aligned + block <= self.end, start <= aligned, aligned < start + block,
                    start % 4096 == 0, aligned % 4096 == 0, block % 4096 == 0, FRAME_SIZE == 4096;
            if size <= FRAME_SIZE {
                assert(aligned == start);
                assert((self.end - start) / FRAME_SIZE as int == (self.end - (start + 4096)) / FRAME_SIZE as int + 1);
            }
        }
        self.next = aligned + block;
        Some(f)
    }

    /// Returns a block previously handed out by this allocator.
    pub fn dealloc_frame(&mut self, frame: Frame)
        requires
            old(self).wf(),
            old(self).used().contains(frame.start),
            frame.start % FRAME_SIZE == 0,
        ensures
            final(self).wf(),
            final(self).used() == old(self).used().remove(frame.start),
            final(self).page_count() >= old(self).page_count(),
    {
        proof {
            self.used@ = self.used@.remove(frame.start);
            assert(self.free@.push(frame).drop_last() =~= self.free@);
        }
        self.free.push(frame);
    }
}

} // verus!
