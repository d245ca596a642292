//! SLUB-style object caches.  Each [`Cache`] hands out objects of one
//! power-of-two size carved from pages of the frame allocator; a page sits
//! on the partial list while it has free objects and on the full list
//! otherwise.  Requests larger than the largest cache go to the frame
//! allocator directly.
use vstd::prelude::*;
use crate::mem::frame::{block_from, Frame, FrameAllocator, FRAME_SIZE, MAX_PHYS};
use crate::mem::list::IntrusiveList;

verus! {

/// Smallest cache order (objects of 16 bytes).
pub const SLUB_MIN_ORDER: u64 = 4;
/// Requests of this order and above bypass the caches.
pub const SLUB_MAX_ORDER: u64 = 11;
/// Number of caches.
pub const CACHES_MAX: usize = 7;
/// Number of per-CPU cache sets.
pub const MAX_CPU: usize = 4;
/// Bytes at the start of a page taken by its header.
pub const SLUB_HEADER_SIZE: u64 = 48;
/// Pages holding fewer objects are doubled (when that helps).
pub const SLUB_MIN_OBJECTS: u64 = 4;
/// Pages are doubled for small object counts only below this size.
pub const SLUB_MAX_PAGE_SIZE: u64 = 0x8000;

/// Bytes that a page of `object_size`-byte objects needs at least: the
/// header rounded up to the object size, and one object.
pub open spec fn slub_min_size(object_size: u64) -> int {
    ((SLUB_HEADER_SIZE + object_size - 1) as u64 & !((object_size - 1) as u64)) + object_size
}

/// The size of a page of `object_size`-byte objects: the smallest
/// power-of-two multiple of the page size that holds the header and one
/// object, doubled when it would hold fewer than [`SLUB_MIN_OBJECTS`]
/// objects, is below [`SLUB_MAX_PAGE_SIZE`], and the double holds two.
pub open spec fn slub_page_size(object_size: u64) -> int {
    let p = block_from(slub_min_size(object_size), FRAME_SIZE as int);
    if p / (object_size as int) < SLUB_MIN_OBJECTS && p < SLUB_MAX_PAGE_SIZE
        && (2 * p) / (object_size as int) >= 2 {
        2 * p
    } else {
        p
    }
}

/// A page of objects.
pub struct SlubPage {
    page_size: u64,
    page_start: u64,
    object_size: u64,
    free_list: IntrusiveList,
    inuse: u64,
    objects: u64,
}

impl SlubPage {
    /// First byte of the page.
    pub closed spec fn start(&self) -> u64 {
        self.page_start
    }

    /// Size of the page in bytes.
    pub closed spec fn size(&self) -> u64 {
        self.page_size
    }

    /// Addresses of the free objects (the next one handed out last).
    pub closed spec fn free(&self) -> Seq<u64> {
        self.free_list@
    }

    /// Objects handed out.
    pub closed spec fn used(&self) -> u64 {
        self.inuse
    }

    /// Objects of the page.
    pub closed spec fn capacity(&self) -> u64 {
        self.objects
    }

    /// `a` lies in the page.
    pub open spec fn holds(&self, a: u64) -> bool {
        self.start() <= a < self.start() + self.size()
    }

    /// Handed-out plus free objects make up the page; free objects lie in
    /// the page.
    pub closed spec fn wf(&self) -> bool {
        &&& self.inuse + self.free_list@.len() == self.objects
        &&& self.page_start + self.page_size <= MAX_PHYS
        &&& self.page_start % FRAME_SIZE == 0
        &&& self.object_size > 0
        &&& forall|i: int| 0 <= i < self.free_list@.len() ==> self.holds(#[trigger] self.free_list@[i])
    }

    /// No free object is left.
    pub fn is_full(&self) -> (r: bool)
        ensures
            r == (self.used() == self.capacity()),
    {
        self.inuse == self.objects
    }

    /// No object is handed out.
    pub fn is_empty(&self) -> (r: bool)
        ensures
            r == (self.used() == 0),
    {
        self.inuse == 0
    }

    /// First byte of the page.
    pub fn page_start(&self) -> (r: u64)
        ensures
            r == self.start(),
    {
        self.page_start
    }

    /// Size of the page in bytes.
    pub fn page_size(&self) -> (r: u64)
        ensures
            r == self.size(),
    {
        self.page_size
    }

    /// A page of objects of `object_size` bytes: a block from `alloc`
    /// (one page, doubled until it holds the header and one object, and
    /// doubled once more when it would hold fewer than
    /// [`SLUB_MIN_OBJECTS`] objects); objects start after the header,
    /// aligned to their size.  `None` when no block is left.
    pub fn new(object_size: u64, alloc: &mut FrameAllocator) -> (r: Option<SlubPage>)
        requires
            old(alloc).wf(),
            0 < object_size <= 0x100_0000_0000,
        ensures
            final(alloc).wf(),
            match r {
                Some(p) => p.wf() && p.used() == 0 && p.free().len() == p.capacity()
                    && !old(alloc).used().contains(p.start())
                    && final(alloc).used() == old(alloc).used().insert(p.start())
                    && p.size() >= FRAME_SIZE,
                None => final(alloc).used() == old(alloc).used()
                    && (!old(alloc).can_supply(slub_page_size(object_size) as u64)
                        || old(alloc).reuses_beyond(slub_page_size(object_size) as u64)),
            },
    {
        let raw = SLUB_HEADER_SIZE + object_size - 1;
        let start_offset = raw & !(object_size - 1);
        assert(raw & !((object_size - 1) as u64) <= raw) by (bit_vector);
        let min_page_size = start_offset + object_size;
        let mut page_size: u64 = FRAME_SIZE;
        while page_size < min_page_size
            invariant
                page_size >= FRAME_SIZE,
                min_page_size <= 0x300_0000_0000,
                page_size <= 0x800_0000_0000,
                min_page_size == slub_min_size(object_size),
                block_from(min_page_size as int, page_size as int) == block_from(min_page_size as int, FRAME_SIZE as int),
            decreases 0x800_0000_0000 - page_size,
        {
            page_size = page_size * 2;
        }
        assert(page_size == block_from(min_page_size as int, FRAME_SIZE as int));
        let desired = page_size / object_size;
        if desired < SLUB_MIN_OBJECTS && page_size < SLUB_MAX_PAGE_SIZE {
            let bigger = page_size * 2;
            if bigger / object_size >= 2 {
                page_size = bigger;
            }
        }
        assert(page_size == slub_page_size(object_size));
        let frame = match alloc.alloc_frame(page_size) {
            Some(f) => f,
            None => return None,
        };
        let start = frame.start;
        let size = frame.size;
        let mut list = IntrusiveList::new();
        let mut count: u64 = 0;
        let mut pos = start + start_offset;
        if start > MAX_PHYS - size {
            alloc.dealloc_frame(frame);
            return None;
        }
        while pos <= start + size && start + size - pos >= object_size
            invariant
                start + size <= MAX_PHYS,
                pos >= start,
                object_size > 0,
                list@.len() == count,
                count <= pos - start,
                forall|i: int| 0 <= i < list@.len() ==> start <= #[trigger] list@[i] < start + size,
            decreases start + size - pos,
        {
            list.push(pos);
            pos = pos + object_size;
            count = count + 1;
        }
        Some(SlubPage { page_size: size, page_start: start, object_size, free_list: list, inuse: 0, objects: count })
    }

    /// Hands out the most recently freed object.
    pub fn alloc_obj(&mut self) -> (r: Option<u64>)
        requires
            old(self).wf(),
        ensures
            final(self).wf(),
            final(self).start() == old(self).start() && final(self).size() == old(self).size(),
            final(self).capacity() == old(self).capacity(),
            match r {
                Some(a) => old(self).free().len() > 0 && a == old(self).free().last()
                    && final(self).free() == old(self).free().drop_last()
                    && final(self).used() == old(self).used() + 1 && old(self).holds(a),
                None => old(self).free().len() == 0 && *final(self) == *old(self),
            },
    {
        if self.free_list.is_empty() {
            None
        } else {
            let p = self.free_list.pop();
            match p {
                Some(a) => {
                    self.inuse = self.inuse + 1;
                    Some(a)
                },
                None => None,
            }
        }
    }

    /// Takes object `ptr` back.
    pub fn dealloc_obj(&mut self, ptr: u64)
        requires
            old(self).wf(),
            old(self).used() > 0,
            old(self).holds(ptr),
        ensures
            final(self).wf(),
            final(self).start() == old(self).start() && final(self).size() == old(self).size(),
            final(self).capacity() == old(self).capacity(),
            final(self).free() == old(self).free().push(ptr),
            final(self).used() == old(self).used() - 1,
    {
        self.free_list.push(ptr);
        self.inuse = self.inuse - 1;
    }
}

/// Objects handed out by the pages `s`.
pub open spec fn total_used(s: Seq<SlubPage>) -> nat
    decreases s.len(),
{
    if s.len() == 0 { 0 } else { total_used(s.drop_last()) + s.last().used() as nat }
}

/// Some page of `s` holds `a`.
pub open spec fn some_holds(s: Seq<SlubPage>, a: u64) -> bool {
    exists|i: int| 0 <= i < s.len() && (#[trigger] s[i]).holds(a)
}

proof fn lemma_total_used_update(s: Seq<SlubPage>, i: int, x: SlubPage)
    requires
        0 <= i < s.len(),
    ensures
        total_used(s.update(i, x)) + s[i].used() == total_used(s) + x.used(),
    decreases s.len(),
{
    if i == s.len() - 1 {
        assert(s.update(i, x).drop_last() =~= s.drop_last());
    } else {
        lemma_total_used_update(s.drop_last(), i, x);
        assert(s.update(i, x).drop_last() =~= s.drop_last().update(i, x));
    }
}

proof fn lemma_total_used_remove(s: Seq<SlubPage>, i: int)
    requires
        0 <= i < s.len(),
    ensures
        total_used(s) == total_used(s.remove(i)) + s[i].used(),
    decreases s.len(),
{
    if i == s.len() - 1 {
        assert(s.remove(i) =~= s.drop_last());
    } else {
        lemma_total_used_remove(s.drop_last(), i);
        assert(s.remove(i).drop_last() =~= s.drop_last().remove(i));
        assert(s.remove(i).last() == s.last());
    }
}

/// Some page of `s` starts at `a`.
pub open spec fn has_start(s: Seq<SlubPage>, a: u64) -> bool {
    exists|i: int| 0 <= i < s.len() && (#[trigger] s[i]).start() == a
}

proof fn lemma_has_start_push(s: Seq<SlubPage>, p: SlubPage, a: u64)
    ensures
        has_start(s.push(p), a) == (has_start(s, a) || p.start() == a),
{
    let t = s.push(p);
    if has_start(s, a) {
        let i = choose|i: int| 0 <= i < s.len() && (#[trigger] s[i]).start() == a;
        assert(t[i] == s[i]);
    }
    if p.start() == a {
        assert(t[s.len() as int] == p);
    }
    if has_start(t, a) {
        let i = choose|i: int| 0 <= i < t.len() && (#[trigger] t[i]).start() == a;
        if i < s.len() {
            assert(t[i] == s[i]);
        }
    }
}

proof fn lemma_has_start_sub(s: Seq<SlubPage>, t: Seq<SlubPage>, i: int, a: u64)
    requires
        0 <= i < s.len(),
        t == s.remove(i) || t == s.drop_last() && i == s.len() - 1,
        has_start(t, a),
    ensures
        has_start(s, a),
{
    let k = choose|k: int| 0 <= k < t.len() && (#[trigger] t[k]).start() == a;
    if k < i {
        assert(t[k] == s[k]);
    } else {
        assert(t[k] == s[k + 1] || t[k] == s[k]);
        if t == s.remove(i) {
            assert(t[k] == s[k + 1]);
        } else {
            assert(t[k] == s[k]);
        }
    }
}

proof fn lemma_has_start_update(s: Seq<SlubPage>, i: int, x: SlubPage, a: u64)
    requires
        0 <= i < s.len(),
        x.start() == s[i].start(),
    ensures
        has_start(s.update(i, x), a) == has_start(s, a),
{
    let t = s.update(i, x);
    if has_start(s, a) {
        let k = choose|k: int| 0 <= k < s.len() && (#[trigger] s[k]).start() == a;
        assert(t[k].start() == a);
    }
    if has_start(t, a) {
        let k = choose|k: int| 0 <= k < t.len() && (#[trigger] t[k]).start() == a;
        assert(s[k].start() == a);
    }
}

/// A list of pages; the head is the last page.
pub struct SlubPageList {
    pages: Vec<SlubPage>,
}

impl SlubPageList {
    /// The pages, head last.
    pub closed spec fn pages(&self) -> Seq<SlubPage> {
        self.pages@
    }

    /// The empty list.
    pub fn new() -> (r: Self)
        ensures
            r.pages() == Seq::<SlubPage>::empty(),
    {
        SlubPageList { pages: Vec::new() }
    }

    /// Whether the list is empty.
    pub fn is_empty(&self) -> (r: bool)
        ensures
            r == (self.pages().len() == 0),
    {
        self.pages.len() == 0
    }

    /// Puts `page` at the head.
    pub fn push(&mut self, page: SlubPage)
        ensures
            final(self).pages() == old(self).pages().push(page),
    {
        self.pages.push(page);
    }

    /// Takes the head page.
    pub fn pop(&mut self) -> (r: Option<SlubPage>)
        ensures
            old(self).pages().len() == 0 ==> r is None && final(self).pages() == old(self).pages(),
            old(self).pages().len() > 0 ==> r == Some(old(self).pages().last())
                && final(self).pages() == old(self).pages().drop_last(),
    {
        self.pages.pop()
    }

    /// Index of the page nearest the head that holds `a`.
    fn find(&self, a: u64) -> (r: Option<usize>)
        ensures
            match r {
                Some(i) => i < self.pages().len() && self.pages()[i as int].holds(a)
                    && forall|j: int| i < j < self.pages().len() ==> !(#[trigger] self.pages()[j]).holds(a),
                None => !some_holds(self.pages(), a),
            },
    {
        let mut i = self.pages.len();
        while i > 0
            invariant
                i <= self.pages@.len(),
                forall|j: int| i <= j < self.pages@.len() ==> !(#[trigger] self.pages@[j]).holds(a),
            decreases i,
        {
            let p = &self.pages[i - 1];
            if p.page_start <= a && a - p.page_start < p.page_size {
                return Some(i - 1);
            }
            i = i - 1;
        }
        None
    }

    /// Unlinks the page nearest the head that starts at `start`.
    pub fn remove(&mut self, start: u64) -> (r: Option<SlubPage>)
        ensures
            match r {
                Some(p) => p.start() == start && exists|i: int| 0 <= i < old(self).pages().len()
                    && old(self).pages()[i] == p && final(self).pages() == old(self).pages().remove(i),
                None => final(self).pages() == old(self).pages()
                    && forall|i: int| 0 <= i < old(self).pages().len() ==> (#[trigger] old(self).pages()[i]).start() != start,
            },
    {
        let mut i = self.pages.len();
        while i > 0
            invariant
                i <= self.pages@.len(),
                self.pages@ == old(self).pages@,
                forall|j: int| i <= j < self.pages@.len() ==> (#[trigger] self.pages@[j]).start() != start,
            decreases i,
        {
            if self.pages[i - 1].page_start == start {
                let ghost before = self.pages@;
                let p = self.pages.remove(i - 1);
                assert(before[i - 1] == p && self.pages@ == before.remove(i - 1));
                assert(old(self).pages()[i - 1] == p && self.pages() == old(self).pages().remove(i - 1));
                return Some(p);
            }
            i = i - 1;
        }
        None
    }

    /// Start addresses of the pages, from the head.
    pub fn iter(&self) -> (r: SlubPageListIter)
        ensures
            r.rest().len() == self.pages().len(),
            forall|k: int| 0 <= k < r.rest().len() ==> #[trigger] r.rest()[k] == self.pages()[self.pages().len() - 1 - k].start(),
    {
        let mut v: Vec<u64> = Vec::new();
        let mut i = self.pages.len();
        while i > 0
            invariant
                i <= self.pages@.len(),
                v@.len() == self.pages@.len() - i,
                forall|k: int| 0 <= k < v@.len() ==> #[trigger] v@[k] == self.pages@[self.pages@.len() - 1 - k].start(),
            decreases i,
        {
            i = i - 1;
            v.push(self.pages[i].page_start);
        }
        let r = SlubPageListIter { starts: v, next: 0 };
        assert(r.starts@.subrange(0, r.starts@.len() as int) =~= r.starts@);
        r
    }

    /// Start addresses of the pages, from the head (the list is not
    /// changed).
    pub fn iter_mut(&mut self) -> (r: SlubPageListIterMut)
        ensures
            final(self).pages() == old(self).pages(),
            r.rest().len() == old(self).pages().len(),
    {
        let it = self.iter();
        SlubPageListIterMut { inner: it }
    }
}

/// Start addresses of the pages of a [`SlubPageList`], from the head.
pub struct SlubPageListIter {
    starts: Vec<u64>,
    next: usize,
}

impl SlubPageListIter {
    /// The start addresses not yet returned.
    pub closed spec fn rest(&self) -> Seq<u64> {
        if self.next <= self.starts@.len() {
            self.starts@.subrange(self.next as int, self.starts@.len() as int)
        } else {
            Seq::empty()
        }
    }

    /// The next start address, if any.
    pub fn next(&mut self) -> (r: Option<u64>)
        ensures
            old(self).rest().len() == 0 ==> r is None && final(self).rest() == old(self).rest(),
            old(self).rest().len() > 0 ==> r == Some(old(self).rest()[0])
                && final(self).rest() == old(self).rest().drop_first(),
    {
        if self.next < self.starts.len() {
            let x = self.starts[self.next];
            let ghost before = self.rest();
            self.next = self.next + 1;
            assert(self.rest() =~= before.drop_first());
            Some(x)
        } else {
            None
        }
    }
}

/// Start addresses of the pages of a [`SlubPageList`], from the head.
pub struct SlubPageListIterMut {
    inner: SlubPageListIter,
}

impl SlubPageListIterMut {
    /// The start addresses not yet returned.
    pub closed spec fn rest(&self) -> Seq<u64> {
        self.inner.rest()
    }

    /// The next start address, if any.
    pub fn next(&mut self) -> (r: Option<u64>)
        ensures
            old(self).rest().len() == 0 ==> r is None && final(self).rest() == old(self).rest(),
            old(self).rest().len() > 0 ==> r == Some(old(self).rest()[0])
                && final(self).rest() == old(self).rest().drop_first(),
    {
        self.inner.next()
    }
}

/// The pages of `a` and of `b` start at pairwise different addresses.
pub open spec fn disjoint_starts(a: Seq<SlubPage>, b: Seq<SlubPage>) -> bool {
    forall|i: int, j: int| 0 <= i < a.len() && 0 <= j < b.len() ==> (#[trigger] a[i]).start() != (#[trigger] b[j]).start()
}

/// The pages of `s` start at pairwise different addresses.
pub open spec fn distinct_starts(s: Seq<SlubPage>) -> bool {
    forall|i: int, j: int| 0 <= i < s.len() && 0 <= j < s.len() && i != j ==> (#[trigger] s[i]).start() != (#[trigger] s[j]).start()
}

/// Every page of `s` is well formed and its block is in use in `alloc`.
pub open spec fn pages_ok(s: Seq<SlubPage>, alloc: &FrameAllocator) -> bool {
    forall|i: int| 0 <= i < s.len() ==> (#[trigger] s[i]).wf() && alloc.used().contains(s[i].start()) && s[i].size() >= FRAME_SIZE
}

/// A cache of objects of one size.
pub struct Cache {
    objects_size: u64,
    partial_slubs: SlubPageList,
    full_slubs: SlubPageList,
}

impl Cache {
    /// Object size.
    pub closed spec fn object_size(&self) -> u64 {
        self.objects_size
    }

    /// Pages with free objects, head last.
    pub closed spec fn partial(&self) -> Seq<SlubPage> {
        self.partial_slubs.pages()
    }

    /// Pages without free objects, head last.
    pub closed spec fn full(&self) -> Seq<SlubPage> {
        self.full_slubs.pages()
    }

    /// Objects handed out.
    pub open spec fn in_use(&self) -> nat {
        total_used(self.partial()) + total_used(self.full())
    }

    /// Some page of the cache starts at `a`.
    pub open spec fn owns(&self, a: u64) -> bool {
        has_start(self.partial(), a) || has_start(self.full(), a)
    }

    /// Pages are well formed, their blocks in use in `alloc`, their start
    /// addresses pairwise different; the object size is representable.
    pub open spec fn wf(&self, alloc: &FrameAllocator) -> bool {
        &&& 0 < self.object_size() <= 0x100_0000_0000
        &&& pages_ok(self.partial(), alloc)
        &&& pages_ok(self.full(), alloc)
        &&& distinct_starts(self.partial())
        &&& distinct_starts(self.full())
        &&& disjoint_starts(self.partial(), self.full())
    }

    /// An empty cache for objects of `objects_size` bytes.
    pub fn new(objects_size: u64) -> (r: Self)
        ensures
            r.object_size() == objects_size,
            r.partial() == Seq::<SlubPage>::empty(),
            r.full() == Seq::<SlubPage>::empty(),
    {
        Cache { objects_size, partial_slubs: SlubPageList::new(), full_slubs: SlubPageList::new() }
    }

    /// No page has free objects.
    pub fn is_full(&self) -> (r: bool)
        ensures
            r == (self.partial().len() == 0),
    {
        self.partial_slubs.is_empty()
    }

    /// Hands out an object: from the head partial page (moved to the full
    /// list when it fills up), or from a fresh page when no page is
    /// partial.  `None` when the head partial page has no free object or
    /// no page can be allocated.
    pub fn allocate(&mut self, alloc: &mut FrameAllocator) -> (r: Option<u64>)
        requires
            old(self).wf(old(alloc)),
            old(alloc).wf(),
        ensures
            final(alloc).wf(),
            final(self).wf(final(alloc)),
            final(self).object_size() == old(self).object_size(),
            old(alloc).used().subset_of(final(alloc).used()),
            forall|a: u64| #[trigger] final(self).owns(a) ==> old(self).owns(a) || !old(alloc).used().contains(a),
            match r {
                Some(a) => final(self).in_use() == old(self).in_use() + 1
                    && (some_holds(final(self).partial(), a) || some_holds(final(self).full(), a)),
                None => final(self).in_use() == old(self).in_use(),
            },
            ready(*old(self)) ==> r is Some,
            r matches Some(a) ==> (old(self).partial().len() > 0 ==> old(self).partial().last().free().len() > 0
                && a == old(self).partial().last().free().last()),
            r matches Some(a) ==> (old(self).partial().len() == 0 ==> final(self).partial().len() == 1
                && final(self).partial()[0].holds(a) && !old(alloc).used().contains(final(self).partial()[0].start())),
    {
        let ghost p0 = self.partial();
        let ghost f0 = self.full();
        if !self.partial_slubs.is_empty() {
            let mut page = match self.partial_slubs.pop() {
                Some(p) => p,
                None => return None,
            };
            let ghost pg0 = page;
            proof {
                assert(p0.drop_last().push(pg0) =~= p0);
                assert(pages_ok(p0, alloc) && p0.last() == pg0);
            }
            match page.alloc_obj() {
                None => {
                    self.partial_slubs.push(page);
                    proof {
                        assert(self.partial() =~= p0);
                    }
                    None
                },
                Some(a) => {
                    proof {
                        assert(total_used(p0) == total_used(p0.drop_last()) + pg0.used());
                    }
                    if page.is_full() {
                        let ghost pg = page;
                        self.full_slubs.push(page);
                        proof {
                            let np = self.partial();
                            let nf = self.full();
                            assert(np =~= p0.drop_last());
                            assert(nf =~= f0.push(pg));
                            assert(nf.drop_last() =~= f0);
                            assert(nf[f0.len() as int] == pg);
                            assert forall|i: int, j: int| 0 <= i < nf.len() && 0 <= j < nf.len() && i != j implies
                                (#[trigger] nf[i]).start() != (#[trigger] nf[j]).start() by {
                                if i == f0.len() {
                                    assert(p0[p0.len() - 1].start() != f0[j].start());
                                } else if j == f0.len() {
                                    assert(p0[p0.len() - 1].start() != f0[i].start());
                                }
                            }
                            assert forall|i: int, j: int| 0 <= i < np.len() && 0 <= j < nf.len() implies
                                (#[trigger] np[i]).start() != (#[trigger] nf[j]).start() by {
                                assert(np[i] == p0[i]);
                                if j == f0.len() {
                                    assert(p0[i].start() != p0[p0.len() - 1].start());
                                }
                            }
                            assert(pages_ok(nf, alloc)) by {
                                assert forall|i: int| 0 <= i < nf.len() implies (#[trigger] nf[i]).wf()
                                    && alloc.used().contains(nf[i].start()) && nf[i].size() >= FRAME_SIZE by {
                                    if i < f0.len() {
                                        assert(nf[i] == f0[i]);
                                    }
                                }
                            }
                            assert(some_holds(nf, a)) by {
                                assert(nf[f0.len() as int].holds(a));
                            }
                            assert(total_used(nf) == total_used(f0) + pg.used());
                            assert(total_used(np) == total_used(p0.drop_last()));
                        }
                    } else {
                        let ghost pg = page;
                        self.partial_slubs.push(page);
                        proof {
                            let np = self.partial();
                            assert(np =~= p0.drop_last().push(pg));
                            assert(np.drop_last() =~= p0.drop_last());
                            assert forall|i: int| 0 <= i < np.len() implies #[trigger] np[i].start() == p0[i].start() by {}
                            assert(pages_ok(np, alloc)) by {
                                assert forall|i: int| 0 <= i < np.len() implies (#[trigger] np[i]).wf()
                                    && alloc.used().contains(np[i].start()) && np[i].size() >= FRAME_SIZE by {
                                    if i < p0.len() - 1 {
                                        assert(np[i] == p0[i]);
                                    }
                                }
                            }
                            assert(some_holds(np, a)) by {
                                assert(np[p0.len() - 1].holds(a));
                            }
                            assert(total_used(np) == total_used(p0.drop_last()) + pg.used());
                        }
                    }
                    Some(a)
                },
            }
        } else {
            let ghost u0 = alloc.used();
            let mut page = match SlubPage::new(self.objects_size, alloc) {
                Some(p) => p,
                None => return None,
            };
            proof {
                assert forall|i: int| 0 <= i < f0.len() implies (#[trigger] f0[i]).start() != page.start() by {
                    assert(u0.contains(f0[i].start()));
                }
            }
            match page.alloc_obj() {
                None => None,
                Some(a) => {
                    let ghost pg = page;
                    self.partial_slubs.push(page);
                    proof {
                        let np = self.partial();
                        assert(np =~= seq![pg]);
                        assert(np.drop_last() =~= Seq::<SlubPage>::empty());
                        assert(some_holds(np, a)) by {
                            assert(np[0].holds(a));
                        }
                        assert(total_used(np) == total_used(np.drop_last()) + pg.used());
                        assert(total_used(p0) == 0);
                        assert(pages_ok(self.full(), alloc)) by {
                            assert forall|i: int| 0 <= i < f0.len() implies (#[trigger] f0[i]).wf()
                                && alloc.used().contains(f0[i].start()) && f0[i].size() >= FRAME_SIZE by {
                                assert(u0.contains(f0[i].start()));
                            }
                        }
                    }
                    Some(a)
                },
            }
        }
    }
}

impl Cache {
    /// Every page holding `a` has an object handed out.
    pub open spec fn can_free(&self, a: u64) -> bool {
        &&& forall|i: int| 0 <= i < self.partial().len() && (#[trigger] self.partial()[i]).holds(a) ==> self.partial()[i].used() > 0
        &&& forall|i: int| 0 <= i < self.full().len() && (#[trigger] self.full()[i]).holds(a) ==> self.full()[i].used() > 0
    }

    /// Takes object `ptr` back into the page nearest the head (full list
    /// first, then partial list) that holds it: a full page moves to the
    /// partial list; a partial page left with no object in use is returned
    /// to `alloc`.  `false` when no page holds `ptr`.
    pub fn dealloc(&mut self, ptr: u64, alloc: &mut FrameAllocator) -> (r: bool)
        requires
            old(self).wf(old(alloc)),
            old(alloc).wf(),
            old(self).can_free(ptr),
        ensures
            final(alloc).wf(),
            final(self).wf(final(alloc)),
            final(self).object_size() == old(self).object_size(),
            final(alloc).used().subset_of(old(alloc).used()),
            forall|a: u64| #[trigger] final(self).owns(a) ==> old(self).owns(a),
            forall|a: u64| old(alloc).used().contains(a) && !final(alloc).used().contains(a) ==> #[trigger] old(self).owns(a),
            r == (some_holds(old(self).partial(), ptr) || some_holds(old(self).full(), ptr)),
            r ==> final(self).in_use() + 1 == old(self).in_use(),
            !r ==> final(self).in_use() == old(self).in_use() && final(alloc).used() == old(alloc).used(),
    {
        let ghost p0 = self.partial();
        let ghost f0 = self.full();
        if let Some(i) = self.full_slubs.find(ptr) {
            let mut page = self.full_slubs.pages.remove(i);
            let ghost pg0 = page;
            proof {
                lemma_total_used_remove(f0, i as int);
                assert(f0[i as int] == pg0);
            }
            page.dealloc_obj(ptr);
            let ghost pg = page;
            self.partial_slubs.push(page);
            proof {
                let np = self.partial();
                let nf = self.full();
                assert(nf =~= f0.remove(i as int));
                assert(np =~= p0.push(pg));
                assert(np.drop_last() =~= p0);
                assert forall|k: int| 0 <= k < nf.len() implies (#[trigger] nf[k]) == f0[if k < i { k } else { k + 1 }] by {}
                assert forall|a: int, b: int| 0 <= a < np.len() && 0 <= b < np.len() && a != b implies
                    (#[trigger] np[a]).start() != (#[trigger] np[b]).start() by {
                    if a == p0.len() {
                        assert(f0[i as int].start() != p0[b].start());
                    } else if b == p0.len() {
                        assert(p0[a].start() != f0[i as int].start());
                    }
                }
                assert forall|a: int, b: int| 0 <= a < np.len() && 0 <= b < nf.len() implies
                    (#[trigger] np[a]).start() != (#[trigger] nf[b]).start() by {
                    let bb = if b < i { b } else { b + 1 };
                    if a == p0.len() {
                        assert(f0[i as int].start() != f0[bb].start());
                    } else {
                        assert(p0[a].start() != f0[bb].start());
                    }
                }
                assert forall|a: int, b: int| 0 <= a < nf.len() && 0 <= b < nf.len() && a != b implies
                    (#[trigger] nf[a]).start() != (#[trigger] nf[b]).start() by {
                    let aa = if a < i { a } else { a + 1 };
                    let bb = if b < i { b } else { b + 1 };
                    assert(f0[aa].start() != f0[bb].start());
                }
                assert(pages_ok(np, alloc)) by {
                    assert forall|k: int| 0 <= k < np.len() implies (#[trigger] np[k]).wf()
                        && alloc.used().contains(np[k].start()) && np[k].size() >= FRAME_SIZE by {
                        if k < p0.len() {
                            assert(np[k] == p0[k]);
                        }
                    }
                }
                assert(total_used(np) == total_used(p0) + pg.used());
                assert(some_holds(f0, ptr));
            }
            return true;
        }
        if let Some(i) = self.partial_slubs.find(ptr) {
            let mut page = self.partial_slubs.pages.remove(i);
            let ghost pg0 = page;
            proof {
                assert(p0[i as int] == pg0);
                lemma_total_used_remove(p0, i as int);
            }
            page.dealloc_obj(ptr);
            if page.is_empty() {
                let ghost pr = self.partial();
                let fr = Frame { start: page.page_start, size: page.page_size };
                proof {
                    assert(pr =~= p0.remove(i as int));
                    assert forall|k: int| 0 <= k < pr.len() implies (#[trigger] pr[k]) == p0[if k < i { k } else { k + 1 }] by {}
                    assert(alloc.used().contains(fr.start));
                }
                alloc.dealloc_frame(fr);
                proof {
                    assert forall|k: int| 0 <= k < pr.len() implies (#[trigger] pr[k]).wf()
                        && alloc.used().contains(pr[k].start()) && pr[k].size() >= FRAME_SIZE by {
                        let kk = if k < i { k } else { k + 1 };
                        assert(p0[kk].start() != p0[i as int].start());
                    }
                    assert forall|k: int| 0 <= k < f0.len() implies (#[trigger] f0[k]).wf()
                        && alloc.used().contains(f0[k].start()) && f0[k].size() >= FRAME_SIZE by {
                        assert(p0[i as int].start() != f0[k].start());
                    }
                    assert forall|a: int, b: int| 0 <= a < pr.len() && 0 <= b < pr.len() && a != b implies
                        (#[trigger] pr[a]).start() != (#[trigger] pr[b]).start() by {
                        let aa = if a < i { a } else { a + 1 };
                        let bb = if b < i { b } else { b + 1 };
                        assert(p0[aa].start() != p0[bb].start());
                    }
                    assert forall|a: int, b: int| 0 <= a < pr.len() && 0 <= b < f0.len() implies
                        (#[trigger] pr[a]).start() != (#[trigger] f0[b]).start() by {
                        let aa = if a < i { a } else { a + 1 };
                        assert(p0[aa].start() != f0[b].start());
                    }
                    assert(some_holds(p0, ptr));
                }
            } else {
                let ghost pg = page;
                self.partial_slubs.pages.insert(i, page);
                proof {
                    let np = self.partial();
                    assert(np =~= p0.update(i as int, pg));
                    lemma_total_used_update(p0, i as int, pg);
                    assert forall|k: int| 0 <= k < np.len() implies #[trigger] np[k].start() == p0[k].start() by {}
                    assert(pages_ok(np, alloc)) by {
                        assert forall|k: int| 0 <= k < np.len() implies (#[trigger] np[k]).wf()
                            && alloc.used().contains(np[k].start()) && np[k].size() >= FRAME_SIZE by {
                            if k != i {
                                assert(np[k] == p0[k]);
                            }
                        }
                    }
                    assert(some_holds(p0, ptr));
                }
            }
            return true;
        }
        false
    }
}

/// `k` is the order of a request: the smallest `k` with `2^k` at least
/// the size, the alignment and the smallest object size.
pub open spec fn is_order(size: u64, align: u64, k: u64) -> bool {
    let m = if size < align { align } else { size };
    let m = if m < 16 { 16 } else { m };
    crate::constants::is_ilog2_ceil(m as nat, k as nat)
}

/// The order of a request of `size` bytes aligned to `align`.
pub open spec fn order_of(size: u64, align: u64) -> u64 {
    choose|k: u64| is_order(size, align, k)
}

/// A request of `size` bytes aligned to `align` can be met at all: both
/// are at most 2^40 bytes, the largest block the frame allocator hands
/// out.
pub open spec fn request_fits(size: u64, align: u64) -> bool {
    size <= 0x100_0000_0000 && align <= 0x100_0000_0000
}

/// The order of a request of `size` bytes aligned to `align`.
pub fn layout_order(size: u64, align: u64) -> (r: u64)
    requires
        size <= 0x8000_0000_0000_0000,
        align <= 0x8000_0000_0000_0000,
    ensures
        is_order(size, align, r),
        4 <= r <= 63,
{
    let m = if size < align { align } else { size };
    let m = if m < 16 { 16 } else { m };
    let mut k: u64 = 0;
    let mut p: u128 = 1;
    proof {
        vstd::arithmetic::power2::lemma2_to64();
        vstd::arithmetic::power2::lemma2_to64_rest();
    }
    while p < m as u128
        invariant
            p == vstd::arithmetic::power2::pow2(k as nat),
            k == 0 || vstd::arithmetic::power2::pow2((k - 1) as nat) < m,
            k <= 63,
            1 <= p <= 0x1_0000_0000_0000_0000,
            16 <= m <= 0x8000_0000_0000_0000,
        decreases 0x1_0000_0000_0000_0000 - p,
    {
        proof {
            vstd::arithmetic::power2::lemma_pow2_unfold((k + 1) as nat);
            vstd::arithmetic::power2::lemma2_to64_rest();
            if k >= 63 {
                assert(vstd::arithmetic::power2::pow2(63) == 0x8000_0000_0000_0000);
                vstd::arithmetic::power2::lemma_pow2_strictly_increases(63, k as nat);
            }
        }
        p = p * 2;
        k = k + 1;
    }
    proof {
        if k < 4 {
            vstd::arithmetic::power2::lemma2_to64();
            if k > 0 {
                vstd::arithmetic::power2::lemma_pow2_strictly_increases(k as nat, 4);
            }
        }
    }
    k
}

/// The object caches of one CPU (or the shared fallback): one cache per
/// order from [`SLUB_MIN_ORDER`] up to below [`SLUB_MAX_ORDER`].
pub struct SlowCaches {
    caches: Vec<Cache>,
}

impl SlowCaches {
    /// The caches, by order.
    pub closed spec fn caches(&self) -> Seq<Cache> {
        self.caches@
    }

    /// Seven caches of objects of 16, 32, ..., 1024 bytes, each well
    /// formed in `alloc`, no two owning the same page.
    pub open spec fn wf(&self, alloc: &FrameAllocator) -> bool {
        &&& self.caches().len() == CACHES_MAX
        &&& forall|i: int| 0 <= i < CACHES_MAX ==> (#[trigger] self.caches()[i]).wf(alloc)
            && self.caches()[i].object_size() == vstd::arithmetic::power2::pow2((i + 4) as nat)
        &&& forall|i: int, j: int, a: u64| 0 <= i < CACHES_MAX && 0 <= j < CACHES_MAX && i != j
            && #[trigger] self.caches()[i].owns(a) ==> !(#[trigger] self.caches()[j]).owns(a)
    }

    /// Objects handed out by the caches.
    pub open spec fn in_use(&self) -> Seq<nat> {
        self.caches().map_values(|c: Cache| c.in_use())
    }

    /// Empty caches for every order.
    pub fn new() -> (r: Self)
        ensures
            forall|alloc: &FrameAllocator| #[trigger] r.wf(alloc),
            forall|a: u64| !#[trigger] r.owns(a),
            forall|i: int| 0 <= i < CACHES_MAX ==> (#[trigger] r.caches()[i]).in_use() == 0,
    {
        let mut caches: Vec<Cache> = Vec::new();
        let mut i: u64 = 0;
        let mut size: u64 = 16;
        proof {
            vstd::arithmetic::power2::lemma2_to64();
        }
        while i < CACHES_MAX as u64
            invariant
                i <= 7,
                caches@.len() == i,
                size == vstd::arithmetic::power2::pow2((i + 4) as nat),
                forall|k: int| 0 <= k < i ==> (#[trigger] caches@[k]).object_size() == vstd::arithmetic::power2::pow2((k + 4) as nat)
                    && caches@[k].partial().len() == 0 && caches@[k].full().len() == 0,
            decreases 7 - i,
        {
            proof {
                vstd::arithmetic::power2::lemma2_to64();
                vstd::arithmetic::power2::lemma_pow2_unfold((i + 5) as nat);
            }
            caches.push(Cache::new(size));
            size = size * 2;
            i = i + 1;
        }
        let r = SlowCaches { caches };
        proof {
            assert forall|a: u64| !#[trigger] r.owns(a) by {
                assert forall|k: int| 0 <= k < CACHES_MAX implies !(#[trigger] r.caches()[k]).owns(a) by {
                    assert(r.caches()[k].partial().len() == 0 && r.caches()[k].full().len() == 0);
                }
            }
            assert forall|k: int| 0 <= k < CACHES_MAX implies (#[trigger] r.caches()[k]).in_use() == 0 by {
                assert(r.caches()[k].partial().len() == 0 && r.caches()[k].full().len() == 0);
            }
            assert forall|alloc: &FrameAllocator| #[trigger] r.wf(alloc) by {
                assert forall|k: int, a: u64| 0 <= k < CACHES_MAX && #[trigger] r.caches()[k].owns(a) implies false by {
                    assert(r.caches()[k].partial().len() == 0 && r.caches()[k].full().len() == 0);
                }
                assert forall|k: int| 0 <= k < CACHES_MAX implies (#[trigger] r.caches()[k]).wf(alloc) by {
                    vstd::arithmetic::power2::lemma2_to64();
                    vstd::arithmetic::power2::lemma_pow2_pos((k + 4) as nat);
                    if k < 6 {
                        vstd::arithmetic::power2::lemma_pow2_strictly_increases((k + 4) as nat, 10);
                    }
                }
            }
        }
        r
    }
}

/// The head partial page of `c` has a free object, so `c` hands out an
/// object without taking a page.
pub open spec fn ready(c: Cache) -> bool {
    c.partial().len() > 0 && c.partial().last().free().len() > 0
}

impl SlowCaches {
    /// Some cache owns the page starting at `a`.
    pub open spec fn owns(&self, a: u64) -> bool {
        exists|i: int| 0 <= i < self.caches().len() && (#[trigger] self.caches()[i]).owns(a)
    }

    /// Hands out `size` bytes aligned to `align`: from the cache of the
    /// request's order, or, from order [`SLUB_MAX_ORDER`] on, as a whole
    /// block of `2^order` bytes from `frames`.
    pub fn allocate(&mut self, size: u64, align: u64, frames: &mut FrameAllocator) -> (r: Option<u64>)
        requires
            old(self).wf(old(frames)),
            old(frames).wf(),
        ensures
            final(frames).wf(),
            final(self).wf(final(frames)),
            old(frames).used().subset_of(final(frames).used()),
            forall|a: u64| #[trigger] final(self).owns(a) ==> old(self).owns(a) || !old(frames).used().contains(a),
            !request_fits(size, align) ==> r is None && *final(self) == *old(self) && *final(frames) == *old(frames),
            ({
                let k = order_of(size, align);
                request_fits(size, align) && k >= SLUB_MAX_ORDER ==> final(self).caches() == old(self).caches() && match r {
                    Some(a) => !old(frames).used().contains(a) && final(frames).used() == old(frames).used().insert(a),
                    None => final(frames).used() == old(frames).used()
                        && !old(frames).can_supply(vstd::arithmetic::power2::pow2(k as nat) as u64),
                }
            }),
            ({
                let k = order_of(size, align);
                request_fits(size, align) && k < SLUB_MAX_ORDER && ready(old(self).caches()[k - SLUB_MIN_ORDER]) ==> r is Some
            }),
            ({
                let k = order_of(size, align);
                request_fits(size, align) && k < SLUB_MAX_ORDER ==> {
                    let i = k - SLUB_MIN_ORDER;
                    &&& forall|j: int| 0 <= j < CACHES_MAX && j != i ==> #[trigger] final(self).caches()[j] == old(self).caches()[j]
                    &&& match r {
                        Some(a) => final(self).caches()[i].in_use() == old(self).caches()[i].in_use() + 1,
                        None => final(self).caches()[i].in_use() == old(self).caches()[i].in_use(),
                    }
                }
            }),
    {
        if size > 0x100_0000_0000 || align > 0x100_0000_0000 {
            return None;
        }
        let order = layout_order(size, align);
        proof {
            lemma_order_unique(size, align, order);
        }
        if order >= SLUB_MAX_ORDER {
            proof {
                vstd::arithmetic::power2::lemma2_to64();
            }
            assert(order <= 41) by {
                if order > 41 {
                    let m = if size < align { align } else { size };
                    let m = if m < 16 { 16 } else { m };
                    if order - 1 > 41 {
                        vstd::arithmetic::power2::lemma_pow2_strictly_increases(41, (order - 1) as nat);
                    }
                    vstd::arithmetic::power2::lemma2_to64_rest();
                }
            }
            proof {
                vstd::arithmetic::power2::lemma2_to64_rest();
                if order < 63 {
                    vstd::arithmetic::power2::lemma_pow2_strictly_increases(order as nat, 63);
                }
                vstd::bits::lemma_u64_shl_is_mul(1, order);
            }
            let r = match frames.alloc_frame(1u64 << order) {
                Some(f) => Some(f.start),
                None => None,
            };
            proof {
                assert forall|a: u64| #[trigger] self.owns(a) implies old(self).owns(a) || !old(frames).used().contains(a) by {}
                assert forall|i: int| 0 <= i < CACHES_MAX implies (#[trigger] self.caches()[i]).wf(frames) by {
                    assert(old(self).caches()[i].wf(old(frames)));
                }
            }
            return r;
        }
        let idx = (order - SLUB_MIN_ORDER) as usize;
        let ghost cs = self.caches@;
        let mut c = self.caches.remove(idx);
        let ghost u0 = frames.used();
        let r = c.allocate(frames);
        self.caches.insert(idx, c);
        proof {
            let ncs = self.caches@;
            assert(ncs =~= cs.update(idx as int, c));
            assert forall|j: int| 0 <= j < CACHES_MAX implies (#[trigger] ncs[j]).wf(frames)
                && ncs[j].object_size() == vstd::arithmetic::power2::pow2((j + 4) as nat) by {
                if j != idx {
                    assert(ncs[j] == cs[j]);
                    assert(cs[j].wf(old(frames)));
                    assert forall|k: int| 0 <= k < cs[j].partial().len() implies (#[trigger] cs[j].partial()[k]).wf()
                        && frames.used().contains(cs[j].partial()[k].start()) && cs[j].partial()[k].size() >= FRAME_SIZE by {
                        assert(u0.contains(cs[j].partial()[k].start()));
                    }
                    assert forall|k: int| 0 <= k < cs[j].full().len() implies (#[trigger] cs[j].full()[k]).wf()
                        && frames.used().contains(cs[j].full()[k].start()) && cs[j].full()[k].size() >= FRAME_SIZE by {
                        assert(u0.contains(cs[j].full()[k].start()));
                    }
                }
            }
            assert forall|i: int, j: int, a: u64| 0 <= i < CACHES_MAX && 0 <= j < CACHES_MAX && i != j
                && #[trigger] ncs[i].owns(a) implies !(#[trigger] ncs[j]).owns(a) by {
                if i == idx {
                    assert(ncs[j] == cs[j]);
                    if cs[j].owns(a) {
                        lemma_owned_used(cs[j], a, old(frames));
                    }
                } else if j == idx {
                    assert(ncs[i] == cs[i]);
                    lemma_owned_used(cs[i], a, old(frames));
                } else {
                    assert(ncs[i] == cs[i] && ncs[j] == cs[j]);
                }
            }
            assert forall|a: u64| #[trigger] self.owns(a) implies old(self).owns(a) || !old(frames).used().contains(a) by {
                let i = choose|i: int| 0 <= i < ncs.len() && (#[trigger] ncs[i]).owns(a);
                if i != idx {
                    assert(ncs[i] == cs[i]);
                }
            }
        }
        r
    }
}

proof fn lemma_owned_used(c: Cache, a: u64, alloc: &FrameAllocator)
    requires
        c.wf(alloc),
        c.owns(a),
    ensures
        alloc.used().contains(a),
{
    if has_start(c.partial(), a) {
        let i = choose|i: int| 0 <= i < c.partial().len() && (#[trigger] c.partial()[i]).start() == a;
    } else {
        let i = choose|i: int| 0 <= i < c.full().len() && (#[trigger] c.full()[i]).start() == a;
    }
}

proof fn lemma_order_unique(size: u64, align: u64, k: u64)
    requires
        is_order(size, align, k),
    ensures
        order_of(size, align) == k,
{
    let j = choose|j: u64| is_order(size, align, j);
    assert(is_order(size, align, j));
    if j < k {
        if j < k - 1 {
            vstd::arithmetic::power2::lemma_pow2_strictly_increases(j as nat, (k - 1) as nat);
        }
    } else if k < j {
        if k < j - 1 {
            vstd::arithmetic::power2::lemma_pow2_strictly_increases(k as nat, (j - 1) as nat);
        }
    }
}

impl SlowCaches {
    /// Takes back `ptr`, allocated for `size` bytes aligned to `align`:
    /// into the cache of the request's order, or, from order
    /// [`SLUB_MAX_ORDER`] on, as a whole block returned to `frames`.
    pub fn dealloc(&mut self, ptr: u64, size: u64, align: u64, frames: &mut FrameAllocator) -> (r: bool)
        requires
            old(self).wf(old(frames)),
            old(frames).wf(),
            size <= 0x100_0000_0000,
            align <= 0x100_0000_0000,
            order_of(size, align) >= SLUB_MAX_ORDER ==> old(frames).used().contains(ptr) && ptr % FRAME_SIZE == 0
                && !old(self).owns(ptr),
            order_of(size, align) < SLUB_MAX_ORDER ==> old(self).caches()[order_of(size, align) - SLUB_MIN_ORDER].can_free(ptr),
        ensures
            final(frames).wf(),
            final(self).wf(final(frames)),
            final(frames).used().subset_of(old(frames).used()),
            forall|a: u64| #[trigger] final(self).owns(a) ==> old(self).owns(a),
            forall|a: u64| old(frames).used().contains(a) && !final(frames).used().contains(a)
                ==> #[trigger] old(self).owns(a) || (order_of(size, align) >= SLUB_MAX_ORDER && a == ptr),
            order_of(size, align) >= SLUB_MAX_ORDER ==> r && final(self).caches() == old(self).caches()
                && final(frames).used() == old(frames).used().remove(ptr),
            ({
                let k = order_of(size, align);
                k < SLUB_MAX_ORDER ==> {
                    let i = k - SLUB_MIN_ORDER;
                    &&& forall|j: int| 0 <= j < CACHES_MAX && j != i ==> #[trigger] final(self).caches()[j] == old(self).caches()[j]
                    &&& r == (some_holds(old(self).caches()[i].partial(), ptr) || some_holds(old(self).caches()[i].full(), ptr))
                    &&& r ==> final(self).caches()[i].in_use() + 1 == old(self).caches()[i].in_use()
                    &&& !r ==> final(self).caches()[i].in_use() == old(self).caches()[i].in_use()
                        && final(frames).used() == old(frames).used()
                }
            }),
    {
        let order = layout_order(size, align);
        proof {
            lemma_order_unique(size, align, order);
        }
        if order >= SLUB_MAX_ORDER {
            proof {
                vstd::arithmetic::power2::lemma2_to64();
            }
            assert(order <= 41) by {
                if order > 41 {
                    if order - 1 > 41 {
                        vstd::arithmetic::power2::lemma_pow2_strictly_increases(41, (order - 1) as nat);
                    }
                    vstd::arithmetic::power2::lemma2_to64_rest();
                }
            }
            let ghost u0 = frames.used();
            frames.dealloc_frame(Frame { start: ptr, size: 1u64 << order });
            proof {
                assert forall|i: int| 0 <= i < CACHES_MAX implies (#[trigger] self.caches()[i]).wf(frames) by {
                    let c = self.caches()[i];
                    assert(c.wf(old(frames)));
                    assert(!c.owns(ptr));
                    assert forall|k: int| 0 <= k < c.partial().len() implies (#[trigger] c.partial()[k]).wf()
                        && frames.used().contains(c.partial()[k].start()) && c.partial()[k].size() >= FRAME_SIZE by {
                        assert(has_start(c.partial(), c.partial()[k].start()));
                    }
                    assert forall|k: int| 0 <= k < c.full().len() implies (#[trigger] c.full()[k]).wf()
                        && frames.used().contains(c.full()[k].start()) && c.full()[k].size() >= FRAME_SIZE by {
                        assert(has_start(c.full(), c.full()[k].start()));
                    }
                }
            }
            return true;
        }
        let idx = (order - SLUB_MIN_ORDER) as usize;
        let ghost cs = self.caches@;
        let mut c = self.caches.remove(idx);
        let ghost u0 = frames.used();
        let r = c.dealloc(ptr, frames);
        self.caches.insert(idx, c);
        proof {
            let ncs = self.caches@;
            assert(ncs =~= cs.update(idx as int, c));
            assert forall|j: int| 0 <= j < CACHES_MAX implies (#[trigger] ncs[j]).wf(frames)
                && ncs[j].object_size() == vstd::arithmetic::power2::pow2((j + 4) as nat) by {
                if j != idx {
                    let cj = cs[j];
                    assert(ncs[j] == cj);
                    assert(cj.wf(old(frames)));
                    assert forall|k: int| 0 <= k < cj.partial().len() implies (#[trigger] cj.partial()[k]).wf()
                        && frames.used().contains(cj.partial()[k].start()) && cj.partial()[k].size() >= FRAME_SIZE by {
                        let a = cj.partial()[k].start();
                        assert(has_start(cj.partial(), a));
                        assert(cj.owns(a));
                        if !frames.used().contains(a) {
                            assert(cs[idx as int].owns(a));
                        }
                    }
                    assert forall|k: int| 0 <= k < cj.full().len() implies (#[trigger] cj.full()[k]).wf()
                        && frames.used().contains(cj.full()[k].start()) && cj.full()[k].size() >= FRAME_SIZE by {
                        let a = cj.full()[k].start();
                        assert(has_start(cj.full(), a));
                        assert(cj.owns(a));
                        if !frames.used().contains(a) {
                            assert(cs[idx as int].owns(a));
                        }
                    }
                }
            }
            assert forall|i: int, j: int, a: u64| 0 <= i < CACHES_MAX && 0 <= j < CACHES_MAX && i != j
                && #[trigger] ncs[i].owns(a) implies !(#[trigger] ncs[j]).owns(a) by {
                if i == idx {
                    assert(ncs[j] == cs[j]);
                } else if j == idx {
                    assert(ncs[i] == cs[i]);
                } else {
                    assert(ncs[i] == cs[i] && ncs[j] == cs[j]);
                }
            }
            assert forall|a: u64| #[trigger] self.owns(a) implies old(self).owns(a) by {
                let i = choose|i: int| 0 <= i < ncs.len() && (#[trigger] ncs[i]).owns(a);
                if i != idx {
                    assert(ncs[i] == cs[i]);
                } else {
                    assert(cs[i].owns(a));
                }
            }
            assert forall|a: u64| old(frames).used().contains(a) && !frames.used().contains(a)
                implies #[trigger] old(self).owns(a) || (order_of(size, align) >= SLUB_MAX_ORDER && a == ptr) by {
                assert(cs[idx as int].owns(a));
            }
        }
        r
    }
}


/// Caches stay well formed under a new frame allocator state in which
/// every page they own is still in use.
proof fn lemma_slow_wf_keep(s: SlowCaches, f0: &FrameAllocator, f1: &FrameAllocator)
    requires
        s.wf(f0),
        forall|a: u64| #[trigger] s.owns(a) ==> f1.used().contains(a),
    ensures
        s.wf(f1),
{
    assert forall|i: int| 0 <= i < CACHES_MAX implies (#[trigger] s.caches()[i]).wf(f1) by {
        let c = s.caches()[i];
        assert(c.wf(f0));
        assert forall|k: int| 0 <= k < c.partial().len() implies (#[trigger] c.partial()[k]).wf()
            && f1.used().contains(c.partial()[k].start()) && c.partial()[k].size() >= FRAME_SIZE by {
            let a = c.partial()[k].start();
            assert(has_start(c.partial(), a));
            assert(c.owns(a));
            assert(s.owns(a));
        }
        assert forall|k: int| 0 <= k < c.full().len() implies (#[trigger] c.full()[k]).wf()
            && f1.used().contains(c.full()[k].start()) && c.full()[k].size() >= FRAME_SIZE by {
            let a = c.full()[k].start();
            assert(has_start(c.full(), a));
            assert(c.owns(a));
            assert(s.owns(a));
        }
    }
}

/// Every page owned by well-formed caches is in use.
proof fn lemma_slow_owned_used(s: SlowCaches, f: &FrameAllocator, a: u64)
    requires
        s.wf(f),
        s.owns(a),
    ensures
        f.used().contains(a),
{
    let i = choose|i: int| 0 <= i < s.caches().len() && (#[trigger] s.caches()[i]).owns(a);
    lemma_owned_used(s.caches()[i], a, f);
}

/// The caches of each CPU, indexed by hart id.
pub struct CpuCache(pub Vec<SlowCaches>);

/// The kernel heap: the caches of the calling CPU are tried first, the
/// shared caches after them.
pub struct Caches {
    cpu_caches: CpuCache,
    slow_caches: SlowCaches,
}

impl Caches {
    /// All caches: those of CPU `j` at index `j`, the shared ones at index
    /// [`MAX_CPU`].
    pub closed spec fn all(&self) -> Seq<SlowCaches> {
        self.cpu_caches.0@.push(self.slow_caches)
    }

    /// Some cache owns the page starting at `a`.
    pub open spec fn owns(&self, a: u64) -> bool {
        exists|j: int| 0 <= j <= MAX_CPU && (#[trigger] self.all()[j]).owns(a)
    }

    /// Every set of caches is well formed in `frames`, and no page is owned
    /// by two of them.
    pub open spec fn wf(&self, frames: &FrameAllocator) -> bool {
        &&& self.all().len() == MAX_CPU + 1
        &&& forall|j: int| 0 <= j <= MAX_CPU ==> (#[trigger] self.all()[j]).wf(frames)
        &&& forall|j: int, k: int, a: u64| 0 <= j <= MAX_CPU && 0 <= k <= MAX_CPU && j != k
            && #[trigger] self.all()[j].owns(a) ==> !(#[trigger] self.all()[k]).owns(a)
    }

    /// Empty caches for every CPU and for the shared fallback.
    pub fn new() -> (r: Self)
        ensures
            forall|frames: &FrameAllocator| #[trigger] r.wf(frames),
            forall|a: u64| !#[trigger] r.owns(a),
            forall|j: int, i: int| 0 <= j <= MAX_CPU && 0 <= i < CACHES_MAX
                ==> (#[trigger] r.all()[j].caches()[i]).in_use() == 0,
    {
        let mut cpus: Vec<SlowCaches> = Vec::new();
        let mut n: usize = 0;
        while n < MAX_CPU
            invariant
                n <= MAX_CPU,
                cpus@.len() == n,
                forall|j: int, frames: &FrameAllocator| 0 <= j < n ==> #[trigger] cpus@[j].wf(frames),
                forall|j: int, a: u64| 0 <= j < n ==> !#[trigger] cpus@[j].owns(a),
                forall|j: int, i: int| 0 <= j < n && 0 <= i < CACHES_MAX
                    ==> (#[trigger] cpus@[j].caches()[i]).in_use() == 0,
            decreases MAX_CPU - n,
        {
            cpus.push(SlowCaches::new());
            n = n + 1;
        }
        let r = Caches { cpu_caches: CpuCache(cpus), slow_caches: SlowCaches::new() };
        proof {
            let all = r.all();
            assert forall|j: int, a: u64| 0 <= j <= MAX_CPU implies !#[trigger] all[j].owns(a) by {
                if j < MAX_CPU {
                    assert(all[j] == cpus@[j]);
                }
            }
            assert forall|frames: &FrameAllocator| #[trigger] r.wf(frames) by {
                assert forall|j: int| 0 <= j <= MAX_CPU implies (#[trigger] all[j]).wf(frames) by {
                    if j < MAX_CPU {
                        assert(all[j] == cpus@[j]);
                    }
                }
            }
            assert forall|j: int, i: int| 0 <= j <= MAX_CPU && 0 <= i < CACHES_MAX
                implies (#[trigger] all[j].caches()[i]).in_use() == 0 by {
                if j < MAX_CPU {
                    assert(all[j] == cpus@[j]);
                }
            }
        }
        r
    }
}


impl Caches {
    /// Hands out `size` bytes aligned to `align` for CPU `cpu`: from that
    /// CPU's caches, and when they give nothing, from the shared caches.
    /// Objects of order [`SLUB_MAX_ORDER`] and more are whole blocks of
    /// `frames`.
    pub fn allocate(&mut self, cpu: usize, size: u64, align: u64, frames: &mut FrameAllocator) -> (r: Option<u64>)
        requires
            old(self).wf(old(frames)),
            old(frames).wf(),
            cpu < MAX_CPU,
        ensures
            final(frames).wf(),
            final(self).wf(final(frames)),
            old(frames).used().subset_of(final(frames).used()),
            forall|j: int| 0 <= j < MAX_CPU && j != cpu ==> #[trigger] final(self).all()[j] == old(self).all()[j],
            !request_fits(size, align) ==> r is None && *final(self) == *old(self) && *final(frames) == *old(frames),
            ({
                let k = order_of(size, align);
                request_fits(size, align) && k >= SLUB_MAX_ORDER ==> {
                    &&& forall|j: int| 0 <= j <= MAX_CPU ==> #[trigger] final(self).all()[j].caches() == old(self).all()[j].caches()
                    &&& match r {
                        Some(a) => !old(frames).used().contains(a) && final(frames).used() == old(frames).used().insert(a),
                        None => final(frames).used() == old(frames).used()
                            && !old(frames).can_supply(vstd::arithmetic::power2::pow2(k as nat) as u64),
                    }
                }
            }),
            ({
                let k = order_of(size, align);
                request_fits(size, align) && k < SLUB_MAX_ORDER && ready(old(self).all()[cpu as int].caches()[k - SLUB_MIN_ORDER]) ==> r is Some
            }),
            ({
                let k = order_of(size, align);
                request_fits(size, align) && k < SLUB_MAX_ORDER ==> {
                    let i = k - SLUB_MIN_ORDER;
                    let c = cpu as int;
                    &&& forall|j: int, m: int| 0 <= j <= MAX_CPU && 0 <= m < CACHES_MAX && m != i
                        ==> #[trigger] final(self).all()[j].caches()[m] == old(self).all()[j].caches()[m]
                    &&& match r {
                        Some(a) => final(self).all()[c].caches()[i].in_use() + final(self).all()[MAX_CPU as int].caches()[i].in_use()
                            == old(self).all()[c].caches()[i].in_use() + old(self).all()[MAX_CPU as int].caches()[i].in_use() + 1,
                        None => final(self).all()[c].caches()[i].in_use() == old(self).all()[c].caches()[i].in_use()
                            && final(self).all()[MAX_CPU as int].caches()[i].in_use() == old(self).all()[MAX_CPU as int].caches()[i].in_use(),
                    }
                }
            }),
    {
        if size > 0x100_0000_0000 || align > 0x100_0000_0000 {
            return None;
        }
        let ghost all0 = self.all();
        let ghost u0 = frames.used();
        let mut c = self.cpu_caches.0.remove(cpu);
        assert(c == all0[cpu as int]);
        let r = c.allocate(size, align, frames);
        self.cpu_caches.0.insert(cpu, c);
        proof {
            let all1 = self.all();
            assert(all1 =~= all0.update(cpu as int, c));
            assert forall|j: int| 0 <= j <= MAX_CPU implies (#[trigger] all1[j]).wf(frames) by {
                if j != cpu {
                    assert forall|a: u64| #[trigger] all1[j].owns(a) implies frames.used().contains(a) by {
                        lemma_slow_owned_used(all0[j], old(frames), a);
                    }
                    lemma_slow_wf_keep(all1[j], old(frames), frames);
                }
            }
            assert forall|j: int, k: int, a: u64| 0 <= j <= MAX_CPU && 0 <= k <= MAX_CPU && j != k
                && #[trigger] all1[j].owns(a) implies !(#[trigger] all1[k]).owns(a) by {
                if j == cpu {
                    assert(all1[k] == all0[k]);
                    if all1[k].owns(a) {
                        lemma_slow_owned_used(all0[k], old(frames), a);
                        assert(all0[j].owns(a));
                    }
                } else if k == cpu {
                    assert(all1[j] == all0[j]);
                    lemma_slow_owned_used(all0[j], old(frames), a);
                    if all1[k].owns(a) {
                        assert(all0[k].owns(a));
                    }
                } else {
                    assert(all1[j] == all0[j] && all1[k] == all0[k]);
                }
            }
        }
        if r.is_some() {
            return r;
        }
        let ghost all2 = self.all();
        let ghost f1: FrameAllocator = *frames;
        assert(self.slow_caches == all2[MAX_CPU as int]);
        let r2 = self.slow_caches.allocate(size, align, frames);
        proof {
            let all3 = self.all();
            assert(all3 =~= all2.update(MAX_CPU as int, self.slow_caches));
            assert forall|j: int| 0 <= j <= MAX_CPU implies (#[trigger] all3[j]).wf(frames) by {
                if j != MAX_CPU {
                    assert forall|a: u64| #[trigger] all3[j].owns(a) implies frames.used().contains(a) by {
                        lemma_slow_owned_used(all2[j], &f1, a);
                    }
                    lemma_slow_wf_keep(all3[j], &f1, frames);
                }
            }
            assert forall|j: int, k: int, a: u64| 0 <= j <= MAX_CPU && 0 <= k <= MAX_CPU && j != k
                && #[trigger] all3[j].owns(a) implies !(#[trigger] all3[k]).owns(a) by {
                if j == MAX_CPU {
                    assert(all3[k] == all2[k]);
                    if all3[k].owns(a) {
                        lemma_slow_owned_used(all2[k], &f1, a);
                        assert(all2[j].owns(a));
                    }
                } else if k == MAX_CPU {
                    assert(all3[j] == all2[j]);
                    lemma_slow_owned_used(all2[j], &f1, a);
                    if all3[k].owns(a) {
                        assert(all2[k].owns(a));
                    }
                } else {
                    assert(all3[j] == all2[j] && all3[k] == all2[k]);
                }
            }
        }
        r2
    }

    /// Takes back `ptr`, allocated for `size` bytes aligned to `align`, on
    /// CPU `cpu`: into that CPU's caches when one of their pages holds it,
    /// else into the shared caches.
    pub fn dealloc(&mut self, cpu: usize, ptr: u64, size: u64, align: u64, frames: &mut FrameAllocator)
        requires
            old(self).wf(old(frames)),
            old(frames).wf(),
            cpu < MAX_CPU,
            size <= 0x100_0000_0000,
            align <= 0x100_0000_0000,
            order_of(size, align) >= SLUB_MAX_ORDER ==> old(frames).used().contains(ptr) && ptr % FRAME_SIZE == 0
                && !old(self).owns(ptr),
            order_of(size, align) < SLUB_MAX_ORDER ==> {
                let i = order_of(size, align) - SLUB_MIN_ORDER;
                &&& old(self).all()[cpu as int].caches()[i].can_free(ptr)
                &&& old(self).all()[MAX_CPU as int].caches()[i].can_free(ptr)
            },
        ensures
            final(frames).wf(),
            final(self).wf(final(frames)),
            final(frames).used().subset_of(old(frames).used()),
            forall|j: int| 0 <= j < MAX_CPU && j != cpu ==> #[trigger] final(self).all()[j] == old(self).all()[j],
            order_of(size, align) >= SLUB_MAX_ORDER ==> final(frames).used() == old(frames).used().remove(ptr)
                && forall|j: int| 0 <= j <= MAX_CPU ==> #[trigger] final(self).all()[j].caches() == old(self).all()[j].caches(),
            ({
                let k = order_of(size, align);
                k < SLUB_MAX_ORDER ==> {
                    let i = k - SLUB_MIN_ORDER;
                    let c = cpu as int;
                    let s = MAX_CPU as int;
                    let pc = old(self).all()[c].caches()[i];
                    let sc = old(self).all()[s].caches()[i];
                    &&& forall|j: int, m: int| 0 <= j <= MAX_CPU && 0 <= m < CACHES_MAX && m != i
                        ==> #[trigger] final(self).all()[j].caches()[m] == old(self).all()[j].caches()[m]
                    &&& (some_holds(pc.partial(), ptr) || some_holds(pc.full(), ptr)) ==> {
                        &&& final(self).all()[c].caches()[i].in_use() + 1 == pc.in_use()
                        &&& final(self).all()[s] == old(self).all()[s]
                    }
                    &&& !(some_holds(pc.partial(), ptr) || some_holds(pc.full(), ptr)) ==> {
                        &&& final(self).all()[c].caches()[i].in_use() == pc.in_use()
                        &&& (some_holds(sc.partial(), ptr) || some_holds(sc.full(), ptr))
                            ==> final(self).all()[s].caches()[i].in_use() + 1 == sc.in_use()
                        &&& !(some_holds(sc.partial(), ptr) || some_holds(sc.full(), ptr))
                            ==> final(self).all()[s].caches()[i].in_use() == sc.in_use()
                                && final(frames).used() == old(frames).used()
                    }
                }
            }),
    {
        let ghost all0 = self.all();
        let mut c = self.cpu_caches.0.remove(cpu);
        assert(c == all0[cpu as int]);
        let found = c.dealloc(ptr, size, align, frames);
        self.cpu_caches.0.insert(cpu, c);
        proof {
            let all1 = self.all();
            assert(all1 =~= all0.update(cpu as int, c));
            assert(all0[cpu as int].owns(ptr) ==> !old(self).owns(ptr) ==> false);
            assert forall|j: int| 0 <= j <= MAX_CPU implies (#[trigger] all1[j]).wf(frames) by {
                if j != cpu {
                    assert forall|a: u64| #[trigger] all1[j].owns(a) implies frames.used().contains(a) by {
                        lemma_slow_owned_used(all0[j], old(frames), a);
                        if !frames.used().contains(a) {
                            assert(all0[cpu as int].owns(a) || (order_of(size, align) >= SLUB_MAX_ORDER && a == ptr));
                            if order_of(size, align) >= SLUB_MAX_ORDER && a == ptr {
                                assert(old(self).owns(a));
                            }
                        }
                    }
                    lemma_slow_wf_keep(all1[j], old(frames), frames);
                }
            }
            assert forall|j: int, k: int, a: u64| 0 <= j <= MAX_CPU && 0 <= k <= MAX_CPU && j != k
                && #[trigger] all1[j].owns(a) implies !(#[trigger] all1[k]).owns(a) by {
                if j == cpu {
                    assert(all0[j].owns(a));
                } else if k == cpu {
                    if all1[k].owns(a) {
                        assert(all0[k].owns(a));
                    }
                }
            }
        }
        if !found {
            let ghost all2 = self.all();
            let ghost f1: FrameAllocator = *frames;
            assert(self.slow_caches == all2[MAX_CPU as int]);
            self.slow_caches.dealloc(ptr, size, align, frames);
            proof {
                let all3 = self.all();
                assert(all3 =~= all2.update(MAX_CPU as int, self.slow_caches));
                assert forall|j: int| 0 <= j <= MAX_CPU implies (#[trigger] all3[j]).wf(frames) by {
                    if j != MAX_CPU {
                        assert forall|a: u64| #[trigger] all3[j].owns(a) implies frames.used().contains(a) by {
                            lemma_slow_owned_used(all2[j], &f1, a);
                            if !frames.used().contains(a) {
                                assert(all2[MAX_CPU as int].owns(a));
                            }
                        }
                        lemma_slow_wf_keep(all3[j], &f1, frames);
                    }
                }
                assert forall|j: int, k: int, a: u64| 0 <= j <= MAX_CPU && 0 <= k <= MAX_CPU && j != k
                    && #[trigger] all3[j].owns(a) implies !(#[trigger] all3[k]).owns(a) by {
                    if j == MAX_CPU {
                        assert(all2[j].owns(a));
                    } else if k == MAX_CPU {
                        if all3[k].owns(a) {
                            assert(all2[k].owns(a));
                        }
                    }
                }
            }
        }
    }

    /// For each order of the shared caches: the object size and the numbers
    /// of partial and of full pages.
    pub fn snapshot(&self) -> (r: Vec<(u64, u64, u64)>)
        requires
            self.all().len() == MAX_CPU + 1,
            self.all()[MAX_CPU as int].caches().len() == CACHES_MAX,
        ensures
            r@.len() == CACHES_MAX,
            forall|i: int| 0 <= i < CACHES_MAX ==> {
                let c = #[trigger] self.all()[MAX_CPU as int].caches()[i];
                r@[i] == (c.object_size(), c.partial().len() as u64, c.full().len() as u64)
            },
    {
        let mut r: Vec<(u64, u64, u64)> = Vec::new();
        let mut i: usize = 0;
        let ghost s = self.all()[MAX_CPU as int];
        assert(s == self.slow_caches);
        while i < self.slow_caches.caches.len()
            invariant
                s == self.slow_caches,
                s.caches().len() == CACHES_MAX,
                i <= CACHES_MAX,
                r@.len() == i,
                forall|k: int| 0 <= k < i ==> {
                    let c = #[trigger] s.caches()[k];
                    r@[k] == (c.object_size(), c.partial().len() as u64, c.full().len() as u64)
                },
            decreases CACHES_MAX - i,
        {
            let c = &self.slow_caches.caches[i];
            r.push((c.objects_size, c.partial_slubs.pages.len() as u64, c.full_slubs.pages.len() as u64));
            i = i + 1;
        }
        r
    }
}

} // verus!
