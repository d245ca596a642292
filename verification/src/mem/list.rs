//! Last-in first-out address lists: the free lists of the SLUB pages and
//! of the frame allocator.
use vstd::prelude::*;

verus! {

/// Index of the last occurrence of `x` in `s` (the one nearest the head).
pub open spec fn last_index_of(s: Seq<u64>, x: u64) -> int
    decreases s.len(),
{
    if s.len() == 0 {
        -1
    } else if s.last() == x {
        s.len() - 1
    } else {
        last_index_of(s.drop_last(), x)
    }
}

proof fn lemma_last_index_of(s: Seq<u64>, x: u64)
    ensures
        -1 <= last_index_of(s, x) < s.len(),
        last_index_of(s, x) >= 0 ==> s[last_index_of(s, x)] == x,
        last_index_of(s, x) == -1 <==> !s.contains(x),
    decreases s.len(),
{
    if s.len() > 0 {
        lemma_last_index_of(s.drop_last(), x);
        if s.last() != x && s.contains(x) {
            let i = choose|i: int| 0 <= i < s.len() && s[i] == x;
            assert(s.drop_last()[i] == x);
        }
        if s.drop_last().contains(x) {
            let i = choose|i: int| 0 <= i < s.len() - 1 && s.drop_last()[i] == x;
            assert(s[i] == x);
        }
    }
}

/// `s` with the element at `i` removed.
pub open spec fn without(s: Seq<u64>, i: int) -> Seq<u64> {
    s.subrange(0, i) + s.subrange(i + 1, s.len() as int)
}

/// A list of addresses: pushed and popped at the head.
pub struct IntrusiveList {
    items: Vec<u64>,
}

impl View for IntrusiveList {
    type V = Seq<u64>;

    /// The addresses, the head last.
    closed spec fn view(&self) -> Seq<u64> {
        self.items@
    }
}

/// The addresses of `s` from the head (the reverse of `s`).
pub open spec fn from_head(s: Seq<u64>) -> Seq<u64> {
    s.reverse()
}

impl IntrusiveList {
    /// The empty list.
    pub fn new() -> (r: Self)
        ensures
            r@ == Seq::<u64>::empty(),
    {
        IntrusiveList { items: Vec::new() }
    }

    /// Whether the list is empty.
    pub fn is_empty(&self) -> (r: bool)
        ensures
            r == (self@.len() == 0),
    {
        self.items.len() == 0
    }

    /// Number of addresses.
    pub fn len(&self) -> (r: usize)
        ensures
            r == self@.len(),
    {
        self.items.len()
    }

    /// Puts `item` at the head.
    pub fn push(&mut self, item: u64)
        ensures
            final(self)@ == old(self)@.push(item),
    {
        self.items.push(item);
    }

    /// Takes the head.
    pub fn pop(&mut self) -> (r: Option<u64>)
        ensures
            old(self)@.len() == 0 ==> r is None && final(self)@ == old(self)@,
            old(self)@.len() > 0 ==> r == Some(old(self)@.last()) && final(self)@ == old(self)@.drop_last(),
    {
        self.items.pop()
    }

    /// Unlinks the occurrence of `item` nearest the head; `false` when the
    /// list does not hold it.
    pub fn remove(&mut self, item: u64) -> (r: bool)
        ensures
            r == old(self)@.contains(item),
            r ==> final(self)@ == without(old(self)@, last_index_of(old(self)@, item)),
            !r ==> final(self)@ == old(self)@,
    {
        proof {
            lemma_last_index_of(self@, item);
        }
        let mut i = self.items.len();
        assert(self.items@.subrange(0, i as int) =~= self.items@);
        while i > 0
            invariant
                i <= self.items@.len(),
                self.items@ == old(self)@,
                last_index_of(self.items@, item) == last_index_of(self.items@.subrange(0, i as int), item),
            decreases i,
        {
            assert(self.items@.subrange(0, i as int).drop_last() =~= self.items@.subrange(0, i - 1));
            if self.items[i - 1] == item {
                let ghost s = self.items@;
                self.items.remove(i - 1);
                assert(self.items@ =~= without(s, i - 1));
                return true;
            }
            i = i - 1;
        }
        false
    }

    /// The addresses from the head.
    pub fn iter(&self) -> (r: IntrusiveListIter)
        ensures
            r.rest() == from_head(self@),
    {
        let mut v: Vec<u64> = Vec::new();
        let mut i = self.items.len();
        while i > 0
            invariant
                i <= self.items@.len(),
                v@ == self.items@.subrange(i as int, self.items@.len() as int).reverse(),
            decreases i,
        {
            i = i - 1;
            v.push(self.items[i]);
            assert(v@ =~= self.items@.subrange(i as int, self.items@.len() as int).reverse());
        }
        assert(self.items@.subrange(0, self.items@.len() as int) =~= self.items@);
        let r = IntrusiveListIter { items: v, next: 0 };
        assert(r.items@.subrange(0, r.items@.len() as int) =~= r.items@);
        r
    }

    /// The addresses from the head (the list itself is not changed).
    pub fn iter_mut(&mut self) -> (r: IntrusiveListIterMut)
        ensures
            r.rest() == from_head(old(self)@),
            final(self)@ == old(self)@,
    {
        let it = self.iter();
        IntrusiveListIterMut { inner: it }
    }
}

/// Addresses of an [`IntrusiveList`], from the head.
pub struct IntrusiveListIter {
    items: Vec<u64>,
    next: usize,
}

impl IntrusiveListIter {
    /// The addresses not yet returned.
    pub closed spec fn rest(&self) -> Seq<u64> {
        if self.next <= self.items@.len() {
            self.items@.subrange(self.next as int, self.items@.len() as int)
        } else {
            Seq::empty()
        }
    }

    /// The next address, if any.
    pub fn next(&mut self) -> (r: Option<u64>)
        ensures
            old(self).rest().len() == 0 ==> r is None && final(self).rest() == old(self).rest(),
            old(self).rest().len() > 0 ==> r == Some(old(self).rest()[0])
                && final(self).rest() == old(self).rest().drop_first(),
    {
        if self.next < self.items.len() {
            let x = self.items[self.next];
            let ghost before = self.rest();
            self.next = self.next + 1;
            assert(self.rest() =~= before.drop_first());
            Some(x)
        } else {
            None
        }
    }
}

/// Addresses of an [`IntrusiveList`], from the head.
pub struct IntrusiveListIterMut {
    inner: IntrusiveListIter,
}

impl IntrusiveListIterMut {
    /// The addresses not yet returned.
    pub closed spec fn rest(&self) -> Seq<u64> {
        self.inner.rest()
    }

    /// The next address, if any.
    pub fn next(&mut self) -> (r: Option<u64>)
        ensures
            old(self).rest().len() == 0 ==> r is None && final(self).rest() == old(self).rest(),
            old(self).rest().len() > 0 ==> r == Some(old(self).rest()[0])
                && final(self).rest() == old(self).rest().drop_first(),
    {
        self.inner.next()
    }
}

/// The free list of the frame allocator: the same last-in first-out
/// address list.
pub struct FreeList {
    list: IntrusiveList,
}

impl View for FreeList {
    type V = Seq<u64>;

    closed spec fn view(&self) -> Seq<u64> {
        self.list@
    }
}

impl FreeList {
    /// The empty list.
    pub fn new() -> (r: Self)
        ensures
            r@ == Seq::<u64>::empty(),
    {
        FreeList { list: IntrusiveList::new() }
    }

    /// Whether the list is empty.
    pub fn is_empty(&self) -> (r: bool)
        ensures
            r == (self@.len() == 0),
    {
        self.list.is_empty()
    }

    /// Puts `item` at the head.
    pub fn push(&mut self, item: u64)
        ensures
            final(self)@ == old(self)@.push(item),
    {
        self.list.push(item);
    }

    /// Takes the head.
    pub fn pop(&mut self) -> (r: Option<u64>)
        ensures
            old(self)@.len() == 0 ==> r is None && final(self)@ == old(self)@,
            old(self)@.len() > 0 ==> r == Some(old(self)@.last()) && final(self)@ == old(self)@.drop_last(),
    {
        self.list.pop()
    }

    /// Unlinks the occurrence of `item` nearest the head; `false` when the
    /// list does not hold it.
    pub fn remove(&mut self, item: u64) -> (r: bool)
        ensures
            r == old(self)@.contains(item),
            r ==> final(self)@ == without(old(self)@, last_index_of(old(self)@, item)),
            !r ==> final(self)@ == old(self)@,
    {
        self.list.remove(item)
    }

    /// The addresses from the head.
    pub fn iter(&self) -> (r: LinkedListIter)
        ensures
            r.rest() == from_head(self@),
    {
        LinkedListIter { inner: self.list.iter() }
    }

    /// The addresses from the head (the list itself is not changed).
    pub fn iter_mut(&mut self) -> (r: LinkedListIterMut)
        ensures
            r.rest() == from_head(old(self)@),
            final(self)@ == old(self)@,
    {
        LinkedListIterMut { inner: self.list.iter() }
    }
}

/// Addresses of a [`FreeList`], from the head.
pub struct LinkedListIter {
    inner: IntrusiveListIter,
}

impl LinkedListIter {
    /// The addresses not yet returned.
    pub closed spec fn rest(&self) -> Seq<u64> {
        self.inner.rest()
    }

    /// The next address, if any.
    pub fn next(&mut self) -> (r: Option<u64>)
        ensures
            old(self).rest().len() == 0 ==> r is None && final(self).rest() == old(self).rest(),
            old(self).rest().len() > 0 ==> r == Some(old(self).rest()[0])
                && final(self).rest() == old(self).rest().drop_first(),
    {
        self.inner.next()
    }
}

/// Addresses of a [`FreeList`], from the head.
pub struct LinkedListIterMut {
    inner: IntrusiveListIter,
}

impl LinkedListIterMut {
    /// The addresses not yet returned.
    pub closed spec fn rest(&self) -> Seq<u64> {
        self.inner.rest()
    }

    /// The next address, if any.
    pub fn next(&mut self) -> (r: Option<u64>)
        ensures
            old(self).rest().len() == 0 ==> r is None && final(self).rest() == old(self).rest(),
            old(self).rest().len() > 0 ==> r == Some(old(self).rest()[0])
                && final(self).rest() == old(self).rest().drop_first(),
    {
        self.inner.next()
    }
}

/// What one push undoes: popping right after pushing `x` gives `x` back
/// and restores the list.
pub proof fn law_pop_after_push(s: Seq<u64>, x: u64)
    ensures
        s.push(x).len() > 0,
        s.push(x).last() == x,
        s.push(x).drop_last() == s,
{
    assert(s.push(x).drop_last() =~= s);
}

} // verus!
