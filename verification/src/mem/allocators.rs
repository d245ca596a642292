//! Entry points to the physical frame allocator and the kernel heap.
use vstd::prelude::*;
use crate::constants::PAGE_SIZE;
use crate::mem::frame::{Frame, FrameAllocator, spec_block_size, block_of, FRAME_SIZE, MAX_PHYS};
use crate::mem::slub::{Caches, CACHES_MAX, MAX_CPU};

verus! {

/// Total size of a list of blocks.
pub open spec fn frames_total(s: Seq<Frame>) -> nat
    decreases s.len(),
{
    if s.len() == 0 { 0 } else { frames_total(s.drop_last()) + s.last().size as nat }
}

/// Some block of `s` starts at `a`.
pub open spec fn starts_at(s: Seq<Frame>, a: u64) -> bool {
    exists|i: int| 0 <= i < s.len() && (#[trigger] s[i]).start == a
}

/// Allocates one block of at least `size` bytes (one page when `size` is
/// `None`).
pub fn alloc_frame(size: Option<u64>, frames: &mut FrameAllocator) -> (r: Option<Frame>)
    requires
        old(frames).wf(),
    ensures
        final(frames).wf(),
        match r {
            Some(f) => {
                &&& spec_block_size((match size { Some(s) => s, None => PAGE_SIZE as u64 }) as nat, f.size as nat)
                &&& f.size <= 0x100_0000_0000
                &&& f.start < MAX_PHYS
                &&& f.start % FRAME_SIZE == 0
                &&& !old(frames).used().contains(f.start)
                &&& final(frames).used() == old(frames).used().insert(f.start)
                &&& f.size == block_of((match size { Some(s) => s, None => PAGE_SIZE as u64 }) as int)
            },
            None => final(frames).used() == old(frames).used()
                && !old(frames).can_supply(match size { Some(s) => s, None => PAGE_SIZE as u64 }),
        },
        r is None ==> final(frames).page_count() == old(frames).page_count(),
        r matches Some(f) ==> final(frames).page_count() + 2 * (f.size as int / FRAME_SIZE as int) >= old(frames).page_count(),
{
    let size = match size {
        Some(s) => s,
        None => PAGE_SIZE as u64,
    };
    frames.alloc_frame(size)
}

/// Returns a block handed out by [`alloc_frame`].
pub fn dealloc_frame(frame: Frame, frames: &mut FrameAllocator)
    requires
        old(frames).wf(),
        old(frames).used().contains(frame.start),
        frame.start % FRAME_SIZE == 0,
    ensures
        final(frames).wf(),
        final(frames).used() == old(frames).used().remove(frame.start),
        final(frames).page_count() >= old(frames).page_count(),
{
    frames.dealloc_frame(frame);
}

/// Allocates blocks totalling at least `size` bytes.  `None` when a block
/// cannot be had; the blocks taken before are then given back.
pub fn alloc_frames(size: u64, frames: &mut FrameAllocator) -> (r: Option<Vec<Frame>>)
    requires
        old(frames).wf(),
    ensures
        final(frames).wf(),
        match r {
            Some(v) => {
                &&& frames_total(v@) >= size
                &&& (size == 0 ==> v@.len() == 0)
                &&& forall|i: int| 0 <= i < v@.len() ==> !old(frames).used().contains(#[trigger] v@[i].start)
                    && v@[i].start % FRAME_SIZE == 0
                &&& forall|i: int, j: int| 0 <= i < j < v@.len() ==> (#[trigger] v@[i]).start != (#[trigger] v@[j]).start
                &&& forall|a: u64| #[trigger] final(frames).used().contains(a)
                    <==> old(frames).used().contains(a) || starts_at(v@, a)
            },
            None => final(frames).used() == old(frames).used() && size > 0 && !old(frames).can_supply(size),
        },
{
    let mut v: Vec<Frame> = Vec::new();
    let mut remaining = size;
    while remaining > 0
        invariant
            frames.wf(),
            remaining <= size,
            frames_total(v@) + remaining >= size,
            size == 0 ==> v@.len() == 0,
            forall|i: int| 0 <= i < v@.len() ==> !old(frames).used().contains(#[trigger] v@[i].start)
                && v@[i].start % FRAME_SIZE == 0,
            forall|i: int, j: int| 0 <= i < j < v@.len() ==> (#[trigger] v@[i]).start != (#[trigger] v@[j]).start,
            forall|a: u64| #[trigger] frames.used().contains(a) <==> old(frames).used().contains(a) || starts_at(v@, a),
            v@.len() == 0 ==> remaining == size && *frames == *old(frames),
            v@.len() > 0 ==> remaining == 0,
        decreases remaining,
    {
        match frames.alloc_frame(remaining) {
            Some(f) => {
                let ghost v0 = v@;
                remaining = if f.size >= remaining { 0 } else { remaining - f.size };
                v.push(f);
                proof {
                    assert(v@.drop_last() =~= v0);
                    assert forall|i: int| 0 <= i < v0.len() implies (#[trigger] v0[i]).start != f.start by {
                        assert(starts_at(v0, v0[i].start));
                    }
                    assert forall|a: u64| #[trigger] frames.used().contains(a)
                        <==> old(frames).used().contains(a) || starts_at(v@, a) by {
                        if starts_at(v@, a) {
                            let i = choose|i: int| 0 <= i < v@.len() && (#[trigger] v@[i]).start == a;
                            if i < v0.len() {
                                assert(v0[i] == v@[i]);
                            }
                        }
                        if starts_at(v0, a) {
                            let i = choose|i: int| 0 <= i < v0.len() && (#[trigger] v0[i]).start == a;
                            assert(v@[i] == v0[i]);
                        }
                        if a == f.start {
                            assert(v@[v0.len() as int] == f);
                        }
                    }
                }
            },
            None => {
                release_frames(v, frames, Ghost(*old(frames)));
                return None;
            },
        }
    }
    Some(v)
}

/// Gives back every block of `v`, whose blocks are exactly those handed out
/// since `base`.
fn release_frames(v: Vec<Frame>, frames: &mut FrameAllocator, base: Ghost<FrameAllocator>)
    requires
        old(frames).wf(),
        forall|i: int| 0 <= i < v@.len() ==> !base@.used().contains(#[trigger] v@[i].start)
            && v@[i].start % FRAME_SIZE == 0,
        forall|i: int, j: int| 0 <= i < j < v@.len() ==> (#[trigger] v@[i]).start != (#[trigger] v@[j]).start,
        forall|a: u64| #[trigger] old(frames).used().contains(a) <==> base@.used().contains(a) || starts_at(v@, a),
    ensures
        final(frames).wf(),
        final(frames).used() == base@.used(),
{
    let mut v = v;
    while v.len() > 0
        invariant
            frames.wf(),
            forall|i: int| 0 <= i < v@.len() ==> !base@.used().contains(#[trigger] v@[i].start)
                && v@[i].start % FRAME_SIZE == 0,
            forall|i: int, j: int| 0 <= i < j < v@.len() ==> (#[trigger] v@[i]).start != (#[trigger] v@[j]).start,
            forall|a: u64| #[trigger] frames.used().contains(a) <==> base@.used().contains(a) || starts_at(v@, a),
        decreases v@.len(),
    {
        let ghost v0 = v@;
        let f = v.pop().unwrap();
        proof {
            assert(v0[v0.len() - 1] == f);
            assert(starts_at(v0, f.start));
        }
        frames.dealloc_frame(f);
        proof {
            assert(v@ =~= v0.drop_last());
            assert forall|a: u64| #[trigger] frames.used().contains(a)
                <==> base@.used().contains(a) || starts_at(v@, a) by {
                if starts_at(v@, a) {
                    let i = choose|i: int| 0 <= i < v@.len() && (#[trigger] v@[i]).start == a;
                    assert(v0[i] == v@[i]);
                    assert(v0[i].start != f.start);
                }
                if starts_at(v0, a) && a != f.start {
                    let i = choose|i: int| 0 <= i < v0.len() && (#[trigger] v0[i]).start == a;
                    assert(i != v0.len() - 1);
                    assert(v@[i] == v0[i]);
                }
            }
        }
    }
    proof {
        assert forall|a: u64| #[trigger] frames.used().contains(a) == base@.used().contains(a) by {
            if starts_at(v@, a) {
                let i = choose|i: int| 0 <= i < v@.len() && (#[trigger] v@[i]).start == a;
            }
        }
        assert(frames.used() =~= base@.used());
    }
}

/// For each order of the shared heap caches: the object size and the
/// numbers of partial and of full pages.
pub fn caches_snapshot(caches: &Caches) -> (r: Vec<(u64, u64, u64)>)
    requires
        caches.all().len() == MAX_CPU + 1,
        caches.all()[MAX_CPU as int].caches().len() == CACHES_MAX,
    ensures
        r@.len() == CACHES_MAX,
        forall|i: int| 0 <= i < CACHES_MAX ==> {
            let c = #[trigger] caches.all()[MAX_CPU as int].caches()[i];
            r@[i] == (c.object_size(), c.partial().len() as u64, c.full().len() as u64)
        },
{
    caches.snapshot()
}

} // verus!
