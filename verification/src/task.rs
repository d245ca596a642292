//! Tasks: ids, memory sets, control blocks, the task table and the
//! round-robin scheduling cursor.
use vstd::prelude::*;
use crate::error::{Error, ProcError};
use crate::fs::vfs::{OpenFlags, ACCESS_READ_ONLY, ACCESS_WRITE_ONLY};
use crate::mem::addr::{PhysicalAddr, VirtualAddr};
use crate::mem::allocators::alloc_frame;
use crate::mem::frame::{Frame, FrameAllocator, FRAME_SIZE, spec_block_size};
use crate::mem::page_table::{AddressSpaceId, MemError, PageTableEntryFlags, PageTableManager, spec_satp};
use crate::mm::memory_map::{ms_wf, mapping_ok, page_floor, give_back, pending_ok, lemma_floor};

verus! {

/// Upper bound (exclusive) of task ids.
pub const TID_MAX: usize = 4096;

/// Index of `a0` in a trap frame.
pub const A0_INDEX: usize = 10;

/// A task id.
#[derive(Clone, Copy, Debug, PartialEq, Eq, Structural)]
pub struct Tid(pub usize);

/// One user mapping: the virtual range from `va` backed by the
/// contiguous physical block `frame`, with page-table flags `flags`.
#[derive(Clone, Copy, Debug, PartialEq, Eq, Structural)]
pub struct UserMapping {
    pub va: VirtualAddr,
    pub frame: Frame,
    pub flags: PageTableEntryFlags,
}

/// The user memory of a task: its mappings and the root of its page table.
pub struct MemorySet {
    pub mappings: Vec<UserMapping>,
    pub user_root_page_table: PhysicalAddr,
}

/// Scheduling state of a task.
#[derive(Clone, Copy, Debug, PartialEq, Eq, Structural)]
pub enum TaskStatus {
    Running,
    Waiting,
    Sleeping,
    Zombie,
    Stopped,
    Dead,
}

/// The registers of a task saved at a trap, with `satp`, `sepc` and
/// `sstatus`.
#[derive(Clone, Copy, Debug)]
pub struct TrapContext {
    pub context: [u64; 32],
    pub satp: u64,
    pub sepc: u64,
    pub sstatus: u64,
}

impl TrapContext {
    /// The context a forked child starts from: the parent's registers at
    /// the `ecall` with `a0` cleared, resuming after the `ecall`, in the
    /// address space selected by `satp`.
    pub fn clone_child(&self, frame: &[u64; 32], sepc: u64, satp: u64) -> (r: TrapContext)
        requires
            sepc <= u64::MAX - 4,
        ensures
            r.context@ == frame@.update(A0_INDEX as int, 0u64),
            r.sepc == sepc + 4,
            r.satp == satp,
            r.sstatus == self.sstatus,
    {
        let mut context = *frame;
        context[A0_INDEX] = 0;
        TrapContext { context, satp, sepc: sepc + 4, sstatus: self.sstatus }
    }
}


/// The mappings of `c` copy those of `s` onto fresh blocks: same
/// addresses and flags, blocks of the same size class not in use in
/// `before`.
pub open spec fn copies(s: Seq<UserMapping>, c: Seq<UserMapping>, before: Set<u64>) -> bool {
    &&& c.len() == s.len()
    &&& forall|i: int| 0 <= i < s.len() ==> {
        let m = #[trigger] c[i];
        &&& m.va == s[i].va
        &&& m.flags == s[i].flags
        &&& spec_block_size(s[i].frame.size as nat, m.frame.size as nat)
        &&& !before.contains(m.frame.start)
    }
}

/// The page tables after cloning `owner`'s for `new_tid`, whose root is at
/// `root`.
spec fn final_facts(pt: &PageTableManager, new_tid: Tid, owner: Tid, pt0: &PageTableManager, root: PhysicalAddr) -> bool {
    &&& pt.has_space(new_tid)
    &&& pt0.user_space(owner).is_copy_of(&pt.user_space(new_tid))
    &&& root.0 == pt.user_space(new_tid).root_addr()
}

impl MemorySet {
    /// A copy of this memory set for task `new_tid`: the page table of
    /// `owner` is cloned for `new_tid`, and every mapping gets a fresh
    /// block of its size.  On a failure while taking blocks, those taken
    /// are given back.
    pub fn try_clone(&self, owner: Tid, new_tid: Tid, pt: &mut PageTableManager, frames: &mut FrameAllocator)
        -> (r: Result<MemorySet, Error>)
        requires
            ms_wf(self.mappings@, old(pt), old(frames)),
            old(pt).wf(old(frames)),
            old(frames).wf(),
        ensures
            final(frames).wf(),
            final(pt).wf(final(frames)),
            ms_wf(self.mappings@, final(pt), final(frames)),
            match r {
                Ok(c) => {
                    &&& old(pt).has_space(owner)
                    &&& final(pt).has_space(new_tid)
                    &&& old(pt).user_space(owner).is_copy_of(&final(pt).user_space(new_tid))
                    &&& c.user_root_page_table.0 == final(pt).user_space(new_tid).root_addr()
                    &&& copies(self.mappings@, c.mappings@,
                        Set::new(|a: u64| old(frames).used().contains(a) && !old(pt).holds_page(a)))
                    &&& ms_wf(c.mappings@, final(pt), final(frames))
                },
                Err(e) => (e == Error::Mem(MemError::AddressSpaceNotFound)) == !old(pt).has_space(owner)
                    && (e == Error::Mem(MemError::AddressSpaceNotFound) || e == Error::Mem(MemError::OutOfMemory)),
            },
    {
        let ghost f0 = *frames;
        let ghost pt0 = *pt;
        match pt.clone(AddressSpaceId::User(owner), new_tid, frames) {
            Ok(()) => {},
            Err(e) => {
                return Err(Error::Mem(e));
            },
        }
        proof {
            pt.lemma_wf_ids(frames);
            assert forall|i: int| 0 <= i < self.mappings@.len() implies mapping_ok(#[trigger] self.mappings@[i])
                && frames.used().contains(self.mappings@[i].frame.start) && !pt.holds_page(self.mappings@[i].frame.start) by {
                let a = self.mappings@[i].frame.start;
                assert(f0.used().contains(a) && !pt0.holds_page(a));
            }
        }
        let root = match pt.user_root_addr(new_tid) {
            Ok(a) => a,
            Err(e) => return Err(Error::Mem(e)),
        };
        let ghost f1 = *frames;
        let ghost before = f1.used();
        let mut mappings: Vec<UserMapping> = Vec::new();
        let mut bufs: Vec<Frame> = Vec::new();
        let mut i: usize = 0;
        while i < self.mappings.len()
            invariant
                i <= self.mappings@.len(),
                mappings@.len() == i,
                bufs@.len() == i,
                frames.wf(),
                pt.wf(frames),
                ms_wf(self.mappings@, pt, frames),
                pending_ok(bufs@, 0, pt, frames, before),
                before == f1.used(),
                forall|a: u64| #[trigger] f0.used().contains(a) ==> before.contains(a) || pt0.holds_page(a),
                forall|a: u64| #[trigger] before.contains(a) ==> frames.used().contains(a),
                forall|j: int| 0 <= j < self.mappings@.len() ==> before.contains(#[trigger] self.mappings@[j].frame.start),
                forall|j: int| 0 <= j < i ==> {
                    let m = #[trigger] mappings@[j];
                    &&& m.va == self.mappings@[j].va
                    &&& m.flags == self.mappings@[j].flags
                    &&& m.frame == bufs@[j]
                    &&& spec_block_size(self.mappings@[j].frame.size as nat, m.frame.size as nat)
                    &&& mapping_ok(m)
                },
            forall|b: int| 0 <= b < i ==> (#[trigger] bufs@[b]).start % FRAME_SIZE == 0,
            pt0 == *old(pt),
            pt0.has_space(owner),
            final_facts(pt, new_tid, owner, &pt0, root),
            decreases self.mappings@.len() - i,
        {
            let m = self.mappings[i];
            let ghost f2 = *frames;
            match alloc_frame(Some(m.frame.size), frames) {
                None => {
                    proof {
                        assert forall|a: u64| #[trigger] pt.holds_page(a) implies frames.used().contains(a) by {
                            pt.lemma_holds_used(&f2, a);
                        }
                        pt.lemma_wf_keep(&f2, frames);
                    }
                    give_back(&bufs, 0, pt, frames, Ghost(self.mappings@), Ghost(before));
                    return Err(Error::Mem(MemError::OutOfMemory));
                },
                Some(f) => {
                    proof {
                        vstd::arithmetic::div_mod::lemma_mod_equivalence(f.start as int, 0, 4096);
                        assert(!pt.holds_page(f.start)) by {
                            if pt.holds_page(f.start) {
                                pt.lemma_holds_used(&f2, f.start);
                            }
                        }
                        assert forall|a: u64| #[trigger] pt.holds_page(a) implies frames.used().contains(a) by {
                            pt.lemma_holds_used(&f2, a);
                        }
                        pt.lemma_wf_keep(&f2, frames);
                        assert forall|j: int| 0 <= j < self.mappings@.len() implies mapping_ok(#[trigger] self.mappings@[j])
                            && frames.used().contains(self.mappings@[j].frame.start) && !pt.holds_page(self.mappings@[j].frame.start) by {
                            assert(before.contains(self.mappings@[j].frame.start));
                        }
                    }
                    let fl = m.va.0 & !0xfffu64;
                    proof {
                        lemma_floor(m.va.0);
                    }
                    if fl > u64::MAX - f.size {
                        // A block reaching past the top of the address space
                        // cannot back the copy.
                        let ghost f3 = *frames;
                        frames.dealloc_frame(f);
                        proof {
                            assert forall|a: u64| #[trigger] pt.holds_page(a) implies frames.used().contains(a) by {
                                pt.lemma_holds_used(&f3, a);
                            }
                            pt.lemma_wf_keep(&f3, frames);
                            assert forall|j: int| 0 <= j < self.mappings@.len() implies mapping_ok(#[trigger] self.mappings@[j])
                                && frames.used().contains(self.mappings@[j].frame.start) && !pt.holds_page(self.mappings@[j].frame.start) by {
                                assert(before.contains(self.mappings@[j].frame.start));
                            }
                            assert forall|b: int| 0 <= b < bufs@.len() implies frames.used().contains(#[trigger] bufs@[b].start)
                                && !pt.holds_page(bufs@[b].start) && !before.contains(bufs@[b].start) by {
                                assert(f2.used().contains(bufs@[b].start));
                            }
                        }
                        give_back(&bufs, 0, pt, frames, Ghost(self.mappings@), Ghost(before));
                        return Err(Error::Mem(MemError::OutOfMemory));
                    }
                    let ghost b0 = bufs@;
                    let ghost m0 = mappings@;
                    bufs.push(f);
                    mappings.push(UserMapping { va: m.va, frame: f, flags: m.flags });
                    proof {
                        assert forall|b: int| 0 <= b < bufs@.len() implies frames.used().contains(#[trigger] bufs@[b].start)
                            && !pt.holds_page(bufs@[b].start) && !before.contains(bufs@[b].start) by {
                            if b < b0.len() {
                                assert(bufs@[b] == b0[b]);
                            }
                        }
                        assert forall|b: int, c: int| 0 <= b < c < bufs@.len() implies (#[trigger] bufs@[b]).start != (#[trigger] bufs@[c]).start by {
                            if c == b0.len() {
                                assert(f2.used().contains(b0[b].start));
                            } else {
                                assert(bufs@[b] == b0[b] && bufs@[c] == b0[c]);
                            }
                        }
                        assert forall|j: int| 0 <= j < i + 1 implies {
                            let mm = #[trigger] mappings@[j];
                            &&& mm.va == self.mappings@[j].va
                            &&& mm.flags == self.mappings@[j].flags
                            &&& mm.frame == bufs@[j]
                            &&& spec_block_size(self.mappings@[j].frame.size as nat, mm.frame.size as nat)
                            &&& mapping_ok(mm)
                        } by {
                            if j < i {
                                assert(mappings@[j] == m0[j] && bufs@[j] == b0[j]);
                            }
                        }
                        assert forall|b: int| 0 <= b < i + 1 implies (#[trigger] bufs@[b]).start % FRAME_SIZE == 0 by {
                            if b < i {
                                assert(bufs@[b] == b0[b]);
                            }
                        }
                    }
                },
            }
            i = i + 1;
        }
        let c = MemorySet { mappings, user_root_page_table: root };
        proof {
            assert forall|j: int| 0 <= j < c.mappings@.len() implies mapping_ok(#[trigger] c.mappings@[j])
                && frames.used().contains(c.mappings@[j].frame.start) && !pt.holds_page(c.mappings@[j].frame.start) by {
                assert(c.mappings@[j].frame == bufs@[j]);
            }
            assert forall|j: int, k: int| 0 <= j < k < c.mappings@.len() implies
                (#[trigger] c.mappings@[j]).frame.start != (#[trigger] c.mappings@[k]).frame.start by {
                assert(c.mappings@[j].frame == bufs@[j] && c.mappings@[k].frame == bufs@[k]);
            }
            assert forall|j: int| 0 <= j < self.mappings@.len() implies {
                let m = #[trigger] c.mappings@[j];
                &&& m.va == self.mappings@[j].va
                &&& m.flags == self.mappings@[j].flags
                &&& spec_block_size(self.mappings@[j].frame.size as nat, m.frame.size as nat)
                &&& !(f0.used().contains(m.frame.start) && !pt0.holds_page(m.frame.start))
            } by {
                let a = c.mappings@[j].frame.start;
                assert(a == bufs@[j].start);
            }
        }
        Ok(c)
    }
}


/// What an open file descriptor refers to.
#[derive(Clone, Copy, Debug, PartialEq, Eq, Structural)]
pub enum FileKind {
    /// The serial console.
    Uart,
}

/// An open file descriptor: the file and the flags it was opened with.
#[derive(Clone, Copy, Debug, PartialEq, Eq, Structural)]
pub struct OpenFile {
    pub kind: FileKind,
    pub flags: OpenFlags,
}

/// The descriptors a new program starts with: standard input reading the
/// console, standard output and standard error writing to it.
pub open spec fn spec_std_fds() -> Seq<OpenFile> {
    seq![
        OpenFile { kind: FileKind::Uart, flags: OpenFlags(ACCESS_READ_ONLY) },
        OpenFile { kind: FileKind::Uart, flags: OpenFlags(ACCESS_WRITE_ONLY) },
        OpenFile { kind: FileKind::Uart, flags: OpenFlags(ACCESS_WRITE_ONLY) },
    ]
}

/// The descriptors a new program starts with (see [`spec_std_fds`]).
pub fn std_fds() -> (r: Vec<OpenFile>)
    ensures
        r@ == spec_std_fds(),
{
    let mut v: Vec<OpenFile> = Vec::new();
    v.push(OpenFile { kind: FileKind::Uart, flags: OpenFlags::read_only() });
    v.push(OpenFile { kind: FileKind::Uart, flags: OpenFlags::write_only() });
    v.push(OpenFile { kind: FileKind::Uart, flags: OpenFlags::write_only() });
    proof {
        assert(v@ =~= spec_std_fds());
    }
    v
}

/// A copy of the descriptor table `fds`.
pub fn copy_fds(fds: &Vec<OpenFile>) -> (r: Vec<OpenFile>)
    ensures
        r@ == fds@,
{
    let mut v: Vec<OpenFile> = Vec::new();
    let mut i: usize = 0;
    while i < fds.len()
        invariant
            i <= fds@.len(),
            v@ == fds@.subrange(0, i as int),
        decreases fds@.len() - i,
    {
        v.push(fds[i]);
        i = i + 1;
        proof {
            assert(v@ =~= fds@.subrange(0, i as int));
        }
    }
    proof {
        assert(v@ =~= fds@);
    }
    v
}

/// A task: its parent and children, state, memory, saved registers, exit
/// code and open file descriptors.
pub struct TaskControlBlock {
    pub parent: Option<Tid>,
    pub children: Vec<Tid>,
    pub status: TaskStatus,
    pub memory_set: MemorySet,
    pub trap_context: TrapContext,
    pub exit_code: i32,
    pub priority: i8,
    pub fd_table: Vec<OpenFile>,
}

impl TaskControlBlock {
    /// Marks the task as running.
    pub fn spawn(&mut self)
        ensures
            final(self).status == TaskStatus::Running,
            final(self).parent == old(self).parent,
            final(self).children@ == old(self).children@,
            final(self).exit_code == old(self).exit_code,
            final(self).priority == old(self).priority,
            final(self).trap_context == old(self).trap_context,
            final(self).memory_set.mappings@ == old(self).memory_set.mappings@,
            final(self).memory_set.user_root_page_table == old(self).memory_set.user_root_page_table,
    {
        self.status = TaskStatus::Running;
    }

    /// Records the exit code.
    pub fn set_exit_code(&mut self, code: i32)
        ensures
            final(self).exit_code == code,
            final(self).status == old(self).status,
            final(self).parent == old(self).parent,
            final(self).children@ == old(self).children@,
            final(self).priority == old(self).priority,
            final(self).trap_context == old(self).trap_context,
            final(self).memory_set.mappings@ == old(self).memory_set.mappings@,
            final(self).memory_set.user_root_page_table == old(self).memory_set.user_root_page_table,
            final(self).fd_table@ == old(self).fd_table@,
    {
        self.exit_code = code;
    }

    /// Task `new_tid` as a child of task `tid`, whose block this is: a
    /// duplicate of the memory set, the registers of the trap `frame` with
    /// `a0` set to zero resuming after the `ecall` at `sepc`, in the child's
    /// address space; running, no children, exit code and priority zero.
    pub fn try_clone(&self, tid: Tid, new_tid: Tid, frame: &[u64; 32], sepc: u64,
        pt: &mut PageTableManager, frames: &mut FrameAllocator) -> (r: Result<TaskControlBlock, Error>)
        requires
            ms_wf(self.memory_set.mappings@, old(pt), old(frames)),
            old(pt).wf(old(frames)),
            old(frames).wf(),
            sepc <= u64::MAX - 4,
        ensures
            final(frames).wf(),
            final(pt).wf(final(frames)),
            ms_wf(self.memory_set.mappings@, final(pt), final(frames)),
            match r {
                Ok(c) => {
                    &&& c.parent == Some(tid)
                    &&& c.children@.len() == 0
                    &&& c.status == TaskStatus::Running
                    &&& c.exit_code == 0
                    &&& c.priority == 0
                    &&& c.fd_table@ == self.fd_table@
                    &&& c.trap_context.context@ == frame@.update(A0_INDEX as int, 0u64)
                    &&& c.trap_context.sepc == sepc + 4
                    &&& c.trap_context.sstatus == self.trap_context.sstatus
                    &&& c.trap_context.satp == spec_satp(c.memory_set.user_root_page_table.0)
                    &&& old(pt).has_space(tid)
                    &&& final(pt).has_space(new_tid)
                    &&& old(pt).user_space(tid).is_copy_of(&final(pt).user_space(new_tid))
                    &&& c.memory_set.user_root_page_table.0 == final(pt).user_space(new_tid).root_addr()
                    &&& copies(self.memory_set.mappings@, c.memory_set.mappings@,
                        Set::new(|a: u64| old(frames).used().contains(a) && !old(pt).holds_page(a)))
                    &&& ms_wf(c.memory_set.mappings@, final(pt), final(frames))
                },
                Err(e) => (e == Error::Mem(MemError::AddressSpaceNotFound)) == !old(pt).has_space(tid)
                    && (e == Error::Mem(MemError::AddressSpaceNotFound) || e == Error::Mem(MemError::OutOfMemory)),
            },
    {
        let memory_set = self.memory_set.try_clone(tid, new_tid, pt, frames)?;
        let satp = crate::mem::page_table::satp_value(memory_set.user_root_page_table);
        let trap_context = self.trap_context.clone_child(frame, sepc, satp);
        Ok(TaskControlBlock {
            parent: Some(tid),
            children: Vec::new(),
            status: TaskStatus::Running,
            memory_set,
            trap_context,
            exit_code: 0,
            priority: 0,
            fd_table: copy_fds(&self.fd_table),
        })
    }
}

/// Hands out task ids from `[1, TID_MAX)`: returned ids first, then ids
/// never handed out.
pub struct TidAllocator {
    next: usize,
    free: Vec<usize>,
    used: Ghost<Set<usize>>,
}

impl TidAllocator {
    /// Ids currently handed out.
    pub closed spec fn used(&self) -> Set<usize> {
        self.used@
    }

    /// Every id of `[1, TID_MAX)` is in use, returned, or not handed out
    /// yet, exactly one of these.
    pub closed spec fn wf(&self) -> bool {
        &&& 1 <= self.next <= TID_MAX
        &&& forall|i: int| 0 <= i < self.free@.len() ==> 1 <= #[trigger] self.free@[i] < self.next
            && !self.used@.contains(self.free@[i])
        &&& forall|i: int, j: int| 0 <= i < j < self.free@.len() ==> self.free@[i] != self.free@[j]
        &&& forall|t: usize| #[trigger] self.used@.contains(t) ==> 1 <= t < self.next
        &&& forall|t: usize| 1 <= t < self.next ==> #[trigger] self.used@.contains(t) || self.free@.contains(t)
    }

    /// No id handed out yet.
    pub fn new() -> (r: Self)
        ensures
            r.wf(),
            r.used() == Set::<usize>::empty(),
    {
        TidAllocator { next: 1, free: Vec::new(), used: Ghost(Set::empty()) }
    }

    /// A fresh id; `None` exactly when every id of `[1, TID_MAX)` is in use.
    pub fn allocate(&mut self) -> (r: Option<Tid>)
        requires
            old(self).wf(),
        ensures
            final(self).wf(),
            match r {
                Some(t) => 1 <= t.0 < TID_MAX && !old(self).used().contains(t.0)
                    && final(self).used() == old(self).used().insert(t.0),
                None => final(self).used() == old(self).used()
                    && forall|t: usize| 1 <= t < TID_MAX ==> #[trigger] old(self).used().contains(t),
            },
    {
        if self.free.len() > 0 {
            let ghost f0 = self.free@;
            let t = self.free.pop().unwrap();
            proof {
                assert(f0[f0.len() - 1] == t);
                assert(self.free@ =~= f0.drop_last());
                self.used@ = self.used@.insert(t);
                assert forall|u: usize| 1 <= u < self.next implies #[trigger] self.used@.contains(u) || self.free@.contains(u) by {
                    if u != t && !self.used@.contains(u) {
                        let k = choose|k: int| 0 <= k < f0.len() && f0[k] == u;
                        assert(k != f0.len() - 1);
                        assert(self.free@[k] == u);
                    }
                }
                assert forall|i: int| 0 <= i < self.free@.len() implies 1 <= #[trigger] self.free@[i] < self.next
                    && !self.used@.contains(self.free@[i]) by {
                    assert(self.free@[i] == f0[i]);
                    assert(f0[i] != f0[f0.len() - 1]);
                }
            }
            return Some(Tid(t));
        }
        if self.next >= TID_MAX {
            proof {
                assert forall|t: usize| 1 <= t < TID_MAX implies #[trigger] self.used@.contains(t) by {
                    assert(!self.free@.contains(t));
                }
            }
            return None;
        }
        let t = self.next;
        proof {
            self.used@ = self.used@.insert(t);
        }
        self.next = self.next + 1;
        Some(Tid(t))
    }

    /// Returns an id; `false` when it is not in use.
    pub fn dealloc(&mut self, tid: Tid) -> (r: bool)
        requires
            old(self).wf(),
        ensures
            final(self).wf(),
            r == old(self).used().contains(tid.0),
            final(self).used() == old(self).used().remove(tid.0),
    {
        let mut i: usize = 0;
        while i < self.free.len()
            invariant
                self.wf(),
                i <= self.free@.len(),
                forall|k: int| 0 <= k < i ==> self.free@[k] != tid.0,
                self.used() == old(self).used(),
            decreases self.free@.len() - i,
        {
            if self.free[i] == tid.0 {
                proof {
                    assert(!self.used@.contains(tid.0));
                    assert(self.used@.remove(tid.0) =~= self.used@);
                }
                return false;
            }
            i = i + 1;
        }
        if tid.0 == 0 || tid.0 >= self.next {
            proof {
                assert(self.used@.remove(tid.0) =~= self.used@);
            }
            return false;
        }
        proof {
            assert(!self.free@.contains(tid.0));
            assert(self.used@.contains(tid.0));
        }
        let ghost f0 = self.free@;
        self.free.push(tid.0);
        proof {
            self.used@ = self.used@.remove(tid.0);
            assert forall|u: usize| 1 <= u < self.next implies #[trigger] self.used@.contains(u) || self.free@.contains(u) by {
                if u == tid.0 {
                    assert(self.free@[f0.len() as int] == u);
                } else if !self.used@.contains(u) {
                    let k = choose|k: int| 0 <= k < f0.len() && f0[k] == u;
                    assert(self.free@[k] == u);
                }
            }
            assert forall|a: int, b: int| 0 <= a < b < self.free@.len() implies self.free@[a] != self.free@[b] by {
                if b == f0.len() {
                    assert(f0[a] != tid.0);
                }
            }
        }
        true
    }
}

/// Allocates a task id.
pub fn alloc_tid(ids: &mut TidAllocator) -> (r: Option<Tid>)
    requires
        old(ids).wf(),
    ensures
        final(ids).wf(),
        match r {
            Some(t) => 1 <= t.0 < TID_MAX && !old(ids).used().contains(t.0)
                && final(ids).used() == old(ids).used().insert(t.0),
            None => final(ids).used() == old(ids).used()
                && forall|t: usize| 1 <= t < TID_MAX ==> #[trigger] old(ids).used().contains(t),
        },
{
    ids.allocate()
}

/// Returns a task id.
pub fn dealloc_tid(tid: Tid, ids: &mut TidAllocator)
    requires
        old(ids).wf(),
    ensures
        final(ids).wf(),
        final(ids).used() == old(ids).used().remove(tid.0),
{
    let _ = ids.dealloc(tid);
}


/// Task ids strictly increase along `s`.
pub open spec fn tids_sorted(s: Seq<(Tid, TaskControlBlock)>) -> bool {
    forall|i: int, j: int| 0 <= i < j < s.len() ==> (#[trigger] s[i]).0.0 < (#[trigger] s[j]).0.0
}

/// Some entry of `s` belongs to `t`.
pub open spec fn has_tid(s: Seq<(Tid, TaskControlBlock)>, t: Tid) -> bool {
    exists|i: int| 0 <= i < s.len() && (#[trigger] s[i]).0 == t
}

/// The index of `t`'s entry in `s` (meaningful when there is one).
pub open spec fn index_of(s: Seq<(Tid, TaskControlBlock)>, t: Tid) -> int {
    choose|i: int| 0 <= i < s.len() && (#[trigger] s[i]).0 == t
}

/// The control block of `t` in `s` (meaningful when there is one).
pub open spec fn tcb_of(s: Seq<(Tid, TaskControlBlock)>, t: Tid) -> TaskControlBlock {
    s[index_of(s, t)].1
}

/// In sorted tables an entry is found by its id.
pub proof fn lemma_index_of(s: Seq<(Tid, TaskControlBlock)>, i: int)
    requires
        tids_sorted(s),
        0 <= i < s.len(),
    ensures
        has_tid(s, s[i].0),
        index_of(s, s[i].0) == i,
{
    let j = index_of(s, s[i].0);
    assert(has_tid(s, s[i].0));
    if j < i {
        assert(s[j].0.0 < s[i].0.0);
    } else if j > i {
        assert(s[i].0.0 < s[j].0.0);
    }
}

/// A task id with the registers it resumes with.
pub struct TaskContext {
    pub tid: Tid,
    pub context: TrapContext,
}

/// The task table, ordered by task id, with the round-robin cursor.
pub struct Tasks {
    pub map: Vec<(Tid, TaskControlBlock)>,
    cursor: Option<Tid>,
}

impl Tasks {
    /// The entries of the table.
    pub closed spec fn entries(&self) -> Seq<(Tid, TaskControlBlock)> {
        self.map@
    }

    /// The id of the task that ran last.
    pub closed spec fn last(&self) -> Option<Tid> {
        self.cursor
    }

    /// An empty table.
    pub fn new() -> (r: Self)
        ensures
            r.entries().len() == 0,
            r.last() == None::<Tid>,
    {
        Tasks { map: Vec::new(), cursor: None }
    }

    /// The table has no entry.
    pub fn is_empty(&self) -> (r: bool)
        ensures
            r == (self.entries().len() == 0),
    {
        self.map.len() == 0
    }

    /// The open file behind descriptor `fd` of task `tid`, if both exist.
    pub fn open_file(&self, tid: Tid, fd: u64) -> (r: Option<OpenFile>)
        requires
            tids_sorted(self.entries()),
        ensures
            r == (if has_tid(self.entries(), tid) && fd < tcb_of(self.entries(), tid).fd_table@.len() {
                Some(tcb_of(self.entries(), tid).fd_table@[fd as int])
            } else {
                None::<OpenFile>
            }),
    {
        let i = match self.find(tid) {
            Some(i) => i,
            None => return None,
        };
        let fds = &self.map[i].1.fd_table;
        if fd < fds.len() as u64 {
            Some(fds[fd as usize])
        } else {
            None
        }
    }

    /// The index of `tid`'s entry.
    pub fn find(&self, tid: Tid) -> (r: Option<usize>)
        requires
            tids_sorted(self.entries()),
        ensures
            match r {
                Some(i) => i < self.entries().len() && self.entries()[i as int].0 == tid && index_of(self.entries(), tid) == i,
                None => !has_tid(self.entries(), tid),
            },
    {
        let mut i: usize = 0;
        while i < self.map.len()
            invariant
                i <= self.map@.len(),
                tids_sorted(self.map@),
                forall|k: int| 0 <= k < i ==> (#[trigger] self.map@[k]).0 != tid,
            decreases self.map@.len() - i,
        {
            if self.map[i].0.0 == tid.0 {
                proof {
                    lemma_index_of(self.map@, i as int);
                }
                return Some(i);
            }
            i = i + 1;
        }
        None
    }

    /// Adds `child` to the children of task `p`, if there is one.
    fn add_child(&mut self, p: Tid, child: Tid)
        requires
            tids_sorted(old(self).map@),
        ensures
            final(self).map@.len() == old(self).map@.len(),
            final(self).cursor == old(self).cursor,
            forall|k: int| 0 <= k < old(self).map@.len() ==> {
                let a = old(self).map@[k];
                let b = #[trigger] final(self).map@[k];
                &&& b.0 == a.0
                &&& b.1.children@ == (if a.0 == p { a.1.children@.push(child) } else { a.1.children@ })
                &&& b.1.parent == a.1.parent && b.1.status == a.1.status && b.1.exit_code == a.1.exit_code
                &&& b.1.priority == a.1.priority && b.1.trap_context == a.1.trap_context
                &&& b.1.memory_set.mappings@ == a.1.memory_set.mappings@
                &&& b.1.memory_set.user_root_page_table == a.1.memory_set.user_root_page_table
            },
    {
        let ghost s0 = self.map@;
        if let Some(i) = self.find(p) {
            let (t, mut ptcb) = self.map.remove(i);
            ptcb.children.push(child);
            self.map.insert(i, (t, ptcb));
            proof {
                assert(self.map@ =~= s0.update(i as int, (t, ptcb)));
                assert forall|k: int| 0 <= k < s0.len() && k != i implies s0[k].0 != p by {
                    if k < i {
                        assert(s0[k].0.0 < s0[i as int].0.0);
                    } else {
                        assert(s0[i as int].0.0 < s0[k].0.0);
                    }
                }
            }
        } else {
            proof {
                assert forall|k: int| 0 <= k < s0.len() implies s0[k].0 != p by {
                    if s0[k].0 == p {
                        assert(has_tid(s0, p));
                    }
                }
            }
        }
    }

    /// Puts `(tid, tcb)` in its place by id, replacing an entry of the same
    /// id.
    fn insert_entry(&mut self, tid: Tid, tcb: TaskControlBlock)
        requires
            tids_sorted(old(self).map@),
        ensures
            tids_sorted(final(self).map@),
            final(self).cursor == old(self).cursor,
            forall|t: Tid| #[trigger] has_tid(final(self).map@, t) == (has_tid(old(self).map@, t) || t == tid),
            tcb_of(final(self).map@, tid) == tcb,
            forall|k: int| 0 <= k < old(self).map@.len() && (#[trigger] old(self).map@[k]).0 != tid
                ==> tcb_of(final(self).map@, old(self).map@[k].0) == old(self).map@[k].1,
    {
        let ghost s1 = self.map@;
        let mut i: usize = 0;
        while i < self.map.len() && self.map[i].0.0 < tid.0
            invariant
                i <= self.map@.len(),
                self.map@ == s1,
                forall|k: int| 0 <= k < i ==> (#[trigger] s1[k]).0.0 < tid.0,
            decreases self.map@.len() - i,
        {
            i = i + 1;
        }
        let replace = i < self.map.len() && self.map[i].0.0 == tid.0;
        if replace {
            self.map.remove(i);
            self.map.insert(i, (tid, tcb));
            proof {
                assert(self.map@ =~= s1.update(i as int, (tid, tcb)));
            }
        } else {
            self.map.insert(i, (tid, tcb));
        }
        proof {
            let s2 = self.map@;
            lemma_insert_sorted(s1, s2, i as int, tid, tcb, replace);
            lemma_index_of(s2, i as int);
            assert forall|t: Tid| #[trigger] has_tid(s2, t) == (has_tid(s1, t) || t == tid) by {
                if has_tid(s1, t) && t != tid {
                    let k = choose|k: int| 0 <= k < s1.len() && (#[trigger] s1[k]).0 == t;
                    let k2 = if replace || k < i { k } else { k + 1 };
                    assert(s2[k2] == s1[k]);
                }
                if has_tid(s2, t) && t != tid {
                    let k = choose|k: int| 0 <= k < s2.len() && (#[trigger] s2[k]).0 == t;
                    if replace || k < i {
                        assert(s1[k] == s2[k]);
                    } else {
                        assert(s1[k - 1] == s2[k]);
                    }
                }
            }
            assert forall|k: int| 0 <= k < s1.len() && (#[trigger] s1[k]).0 != tid
                implies tcb_of(s2, s1[k].0) == s1[k].1 by {
                let k2 = if replace || k < i { k } else { k + 1 };
                assert(s2[k2] == s1[k]);
                lemma_index_of(s2, k2);
            }
        }
    }

    /// Takes out entry `i`.
    pub fn take_at(&mut self, i: usize) -> (r: (Tid, TaskControlBlock))
        requires
            i < old(self).entries().len(),
        ensures
            final(self).entries() == old(self).entries().remove(i as int),
            r == old(self).entries()[i as int],
            final(self).last() == old(self).last(),
    {
        self.map.remove(i)
    }

    /// Puts an entry back at index `i`.
    pub fn put_at(&mut self, i: usize, e: (Tid, TaskControlBlock))
        requires
            i <= old(self).entries().len(),
        ensures
            final(self).entries() == old(self).entries().insert(i as int, e),
            final(self).last() == old(self).last(),
    {
        self.map.insert(i, e);
    }

    /// Registers `tcb` as task `tid` (replacing an entry of the same id)
    /// and adds `tid` to the children of `parent`, or of task 1 when there
    /// is no parent.
    pub fn add(&mut self, tid: Tid, parent: Option<Tid>, tcb: TaskControlBlock)
        requires
            tids_sorted(old(self).entries()),
        ensures
            tids_sorted(final(self).entries()),
            final(self).last() == old(self).last(),
            forall|t: Tid| #[trigger] has_tid(final(self).entries(), t) == (has_tid(old(self).entries(), t) || t == tid),
            tcb_of(final(self).entries(), tid) == tcb,
            forall|t: Tid| t != tid && has_tid(old(self).entries(), t) ==> {
                let p = match parent { Some(p) => p, None => Tid(1) };
                let a = tcb_of(old(self).entries(), t);
                let b = #[trigger] tcb_of(final(self).entries(), t);
                &&& b.children@ == (if t == p { a.children@.push(tid) } else { a.children@ })
                &&& b.parent == a.parent && b.status == a.status && b.exit_code == a.exit_code
                &&& b.priority == a.priority && b.trap_context == a.trap_context
                &&& b.memory_set.mappings@ == a.memory_set.mappings@
                &&& b.memory_set.user_root_page_table == a.memory_set.user_root_page_table
            },
    {
        let ghost s0 = self.map@;
        let p = match parent {
            Some(p) => p,
            None => Tid(1),
        };
        self.add_child(p, tid);
        let ghost s1 = self.map@;
        proof {
            assert(tids_sorted(s1)) by {
                assert forall|a: int, b: int| 0 <= a < b < s1.len() implies (#[trigger] s1[a]).0.0 < (#[trigger] s1[b]).0.0 by {
                    assert(s1[a].0 == s0[a].0 && s1[b].0 == s0[b].0);
                }
            }
        }
        self.insert_entry(tid, tcb);
        proof {
            let s2 = self.map@;
            assert forall|t: Tid| t != tid && has_tid(s0, t) implies {
                let a = tcb_of(s0, t);
                let b = #[trigger] tcb_of(s2, t);
                &&& b.children@ == (if t == p { a.children@.push(tid) } else { a.children@ })
                &&& b.parent == a.parent && b.status == a.status && b.exit_code == a.exit_code
                &&& b.priority == a.priority && b.trap_context == a.trap_context
                &&& b.memory_set.mappings@ == a.memory_set.mappings@
                &&& b.memory_set.user_root_page_table == a.memory_set.user_root_page_table
            } by {
                let k = choose|k: int| 0 <= k < s0.len() && (#[trigger] s0[k]).0 == t;
                lemma_index_of(s0, k);
                assert(s1[k].0 == t);
            }
            assert forall|t: Tid| #[trigger] has_tid(s1, t) == has_tid(s0, t) by {
                if has_tid(s0, t) {
                    let k = choose|k: int| 0 <= k < s0.len() && (#[trigger] s0[k]).0 == t;
                    assert(s1[k].0 == t);
                }
                if has_tid(s1, t) {
                    let k = choose|k: int| 0 <= k < s1.len() && (#[trigger] s1[k]).0 == t;
                    assert(s0[k].0 == t);
                }
            }
        }
    }
}

/// Inserting or replacing at the position found by id keeps ids sorted.
proof fn lemma_insert_sorted(s1: Seq<(Tid, TaskControlBlock)>, s2: Seq<(Tid, TaskControlBlock)>, i: int, tid: Tid,
    tcb: TaskControlBlock, replace: bool)
    requires
        tids_sorted(s1),
        0 <= i <= s1.len(),
        forall|k: int| 0 <= k < i ==> (#[trigger] s1[k]).0.0 < tid.0,
        replace ==> i < s1.len() && s1[i].0.0 == tid.0 && s2 == s1.update(i, (tid, tcb)),
        !replace ==> (i < s1.len() ==> s1[i].0.0 >= tid.0 && s1[i].0.0 != tid.0) && s2 == s1.insert(i, (tid, tcb)),
    ensures
        tids_sorted(s2),
        s2[i] == (tid, tcb),
{
    assert forall|a: int, b: int| 0 <= a < b < s2.len() implies (#[trigger] s2[a]).0.0 < (#[trigger] s2[b]).0.0 by {
        if replace {
            if a == i {
                assert(s1[b].0.0 > s1[a].0.0);
            } else if b == i {
                assert(s1[a].0.0 < s1[b].0.0);
            }
        } else {
            if b < i {
            } else if b == i {
            } else if a == i {
                if b - 1 > i {
                    assert(s1[i].0.0 < s1[b - 1].0.0);
                }
            } else if a < i {
                if a < b - 1 {
                    assert(s1[a].0.0 < s1[b - 1].0.0);
                }
            }
        }
    }
}


/// `b` is `a` with the same fields (the child list by its contents).
pub open spec fn same_tcb(a: TaskControlBlock, b: TaskControlBlock) -> bool {
    &&& b.parent == a.parent && b.status == a.status && b.exit_code == a.exit_code
    &&& b.priority == a.priority && b.trap_context == a.trap_context
    &&& b.children@ == a.children@
    &&& b.memory_set.mappings@ == a.memory_set.mappings@
    &&& b.memory_set.user_root_page_table == a.memory_set.user_root_page_table
}

/// `t` is `s` with only the mappings of task `tid` possibly changed.
pub open spec fn ms_updated(s: Seq<(Tid, TaskControlBlock)>, t: Seq<(Tid, TaskControlBlock)>, tid: Tid) -> bool {
    &&& t.len() == s.len()
    &&& forall|k: int| 0 <= k < s.len() ==> (#[trigger] t[k]).0 == s[k].0
    &&& forall|k: int| 0 <= k < s.len() && s[k].0 != tid ==> same_tcb(s[k].1, #[trigger] t[k].1)
    &&& forall|k: int| 0 <= k < s.len() && s[k].0 == tid ==> {
        let a = s[k].1;
        let b = #[trigger] t[k].1;
        &&& b.parent == a.parent && b.status == a.status && b.exit_code == a.exit_code
        &&& b.priority == a.priority && b.trap_context == a.trap_context
        &&& b.children@ == a.children@
        &&& b.memory_set.user_root_page_table == a.memory_set.user_root_page_table
    }
}

/// Entry `i` is the first running task whose id is above `lo`.
pub open spec fn first_running_above(s: Seq<(Tid, TaskControlBlock)>, lo: int, i: int) -> bool {
    &&& 0 <= i < s.len()
    &&& s[i].1.status == TaskStatus::Running
    &&& s[i].0.0 > lo
    &&& forall|j: int| 0 <= j < i && (#[trigger] s[j]).0.0 > lo ==> s[j].1.status != TaskStatus::Running
}

/// No running task has an id above `lo`.
pub open spec fn none_running_above(s: Seq<(Tid, TaskControlBlock)>, lo: int) -> bool {
    forall|j: int| 0 <= j < s.len() && (#[trigger] s[j]).0.0 > lo ==> s[j].1.status != TaskStatus::Running
}

/// The entry round-robin scheduling picks after the task `last`: the
/// first running task with a larger id, else the first running task.
pub open spec fn picks(s: Seq<(Tid, TaskControlBlock)>, last: Option<Tid>, i: int) -> bool {
    let lo = match last { Some(c) => c.0 as int, None => -1 };
    first_running_above(s, lo, i) || (none_running_above(s, lo) && first_running_above(s, -1, i))
}

/// Index of the first running task with an id above `lo`.
fn find_running_above(s: &Vec<(Tid, TaskControlBlock)>, lo: Option<usize>) -> (r: Option<usize>)
    ensures
        match r {
            Some(i) => first_running_above(s@, match lo { Some(c) => c as int, None => -1 }, i as int),
            None => none_running_above(s@, match lo { Some(c) => c as int, None => -1 }),
        },
{
    let ghost l: int = match lo { Some(c) => c as int, None => -1 };
    let mut i: usize = 0;
    while i < s.len()
        invariant
            i <= s@.len(),
            l == match lo { Some(c) => c as int, None => -1 },
            forall|j: int| 0 <= j < i && (#[trigger] s@[j]).0.0 > l ==> s@[j].1.status != TaskStatus::Running,
        decreases s@.len() - i,
    {
        let above = match lo {
            Some(c) => s[i].0.0 > c,
            None => true,
        };
        if above && s[i].1.status == TaskStatus::Running {
            return Some(i);
        }
        i = i + 1;
    }
    None
}

/// A round-robin walk over the ids of a task table: after the largest id
/// it starts again from the smallest.
pub struct TasksCursor<'a> {
    tasks: &'a Tasks,
    current: Option<Tid>,
}

/// Entry `i` comes next after `cur` in cyclic id order.
pub open spec fn cyclic_next(s: Seq<(Tid, TaskControlBlock)>, cur: Option<Tid>, i: int) -> bool {
    &&& 0 <= i < s.len()
    &&& match cur {
        None => i == 0,
        Some(c) => {
            ||| (s[i].0.0 > c.0 && forall|j: int| 0 <= j < i ==> (#[trigger] s[j]).0.0 <= c.0)
            ||| (i == 0 && forall|j: int| 0 <= j < s.len() ==> (#[trigger] s[j]).0.0 <= c.0)
        },
    }
}

impl<'a> TasksCursor<'a> {
    /// The table walked.
    pub closed spec fn table(&self) -> Seq<(Tid, TaskControlBlock)> {
        self.tasks.map@
    }

    /// The id visited last.
    pub closed spec fn at(&self) -> Option<Tid> {
        self.current
    }

    /// The next id in cyclic order; `None` when the table is empty.
    pub fn next(&mut self) -> (r: Option<Tid>)
        ensures
            final(self).table() == old(self).table(),
            match r {
                Some(t) => exists|i: int| cyclic_next(old(self).table(), old(self).at(), i) && (#[trigger] old(self).table()[i]).0 == t
                    && final(self).at() == Some(t),
                None => old(self).table().len() == 0 && final(self).at() == old(self).at(),
            },
    {
        let s = &self.tasks.map;
        if s.len() == 0 {
            return None;
        }
        let mut i: usize = 0;
        match self.current {
            Some(c) => {
                while i < s.len() && s[i].0.0 <= c.0
                    invariant
                        i <= s@.len(),
                        forall|j: int| 0 <= j < i ==> (#[trigger] s@[j]).0.0 <= c.0,
                    decreases s@.len() - i,
                {
                    i = i + 1;
                }
                if i == s.len() {
                    i = 0;
                }
            },
            None => {},
        }
        let t = s[i].0;
        self.current = Some(t);
        proof {
            assert(old(self).table() == s@);
            assert(cyclic_next(old(self).table(), old(self).at(), i as int));
            assert(old(self).table()[i as int].0 == t);
        }
        Some(t)
    }
}

impl Tasks {
    /// Runs the task with the smallest id: marks it running, remembers it
    /// as the last task run and returns its registers.
    pub fn spawn_first(&mut self) -> (r: Result<TaskContext, Error>)
        ensures
            final(self).entries().len() == old(self).entries().len(),
            forall|k: int| 0 <= k < old(self).entries().len() ==> (#[trigger] final(self).entries()[k]).0 == old(self).entries()[k].0,
            forall|k: int| 1 <= k < old(self).entries().len() ==> same_tcb(old(self).entries()[k].1, #[trigger] final(self).entries()[k].1),
            match r {
                Ok(ctx) => {
                    &&& old(self).entries().len() > 0
                    &&& ctx.tid == old(self).entries()[0].0
                    &&& ctx.context == old(self).entries()[0].1.trap_context
                    &&& final(self).last() == Some(ctx.tid)
                    &&& final(self).entries()[0].1.status == TaskStatus::Running
                },
                Err(e) => old(self).entries().len() == 0 && e == Error::Proc(ProcError::NoOtherTask)
                    && final(self).last() == old(self).last(),
            },
    {
        if self.map.len() == 0 {
            return Err(Error::Proc(ProcError::NoOtherTask));
        }
        let ghost s0 = self.map@;
        let (tid, mut tcb) = self.map.remove(0);
        self.cursor = Some(tid);
        tcb.spawn();
        let context = tcb.trap_context;
        self.map.insert(0, (tid, tcb));
        proof {
            assert(self.map@ =~= s0.update(0, (tid, tcb)));
        }
        Ok(TaskContext { tid, context })
    }

    /// A cursor before the first task.
    pub fn cursor(&self) -> (r: TasksCursor<'_>)
        ensures
            r.table() == self.entries(),
            r.at() == None::<Tid>,
    {
        TasksCursor { tasks: self, current: None }
    }

    /// Runs the next task round-robin: the first running task after the
    /// one run last (wrapping around), which becomes the one run last.
    pub fn spawn_current(&mut self) -> (r: Result<TaskContext, Error>)
        ensures
            final(self).entries().len() == old(self).entries().len(),
            forall|k: int| 0 <= k < old(self).entries().len() ==> (#[trigger] final(self).entries()[k]).0 == old(self).entries()[k].0
                && same_tcb(old(self).entries()[k].1, final(self).entries()[k].1),
            match r {
                Ok(ctx) => exists|i: int| picks(old(self).entries(), old(self).last(), i)
                    && (#[trigger] old(self).entries()[i]).0 == ctx.tid
                    && ctx.context == old(self).entries()[i].1.trap_context
                    && final(self).last() == Some(ctx.tid),
                Err(e) => e == Error::Proc(ProcError::NoOtherTask) && none_running_above(old(self).entries(), -1)
                    && final(self).last() == old(self).last(),
            },
    {
        let ghost s0 = self.map@;
        let found = match self.cursor {
            Some(c) => match find_running_above(&self.map, Some(c.0)) {
                Some(i) => Some(i),
                None => find_running_above(&self.map, None),
            },
            None => find_running_above(&self.map, None),
        };
        let i = match found {
            Some(i) => i,
            None => {
                proof {
                    if let Some(c) = self.cursor {
                        assert forall|j: int| 0 <= j < s0.len() && (#[trigger] s0[j]).0.0 > -1 implies s0[j].1.status != TaskStatus::Running by {}
                    }
                }
                return Err(Error::Proc(ProcError::NoOtherTask));
            },
        };
        let (tid, mut tcb) = self.map.remove(i);
        self.cursor = Some(tid);
        tcb.spawn();
        let context = tcb.trap_context;
        self.map.insert(i, (tid, tcb));
        proof {
            assert(self.map@ =~= s0.update(i as int, (tid, tcb)));
            assert(s0[i as int].1.status == TaskStatus::Running);
            assert(picks(s0, old(self).cursor, i as int));
        }
        Ok(TaskContext { tid, context })
    }

    /// Each task's id and state, by id.
    pub fn snapshot(&self) -> (r: Vec<(Tid, TaskStatus)>)
        ensures
            r@.len() == self.entries().len(),
            forall|k: int| 0 <= k < r@.len() ==> #[trigger] r@[k] == (self.entries()[k].0, self.entries()[k].1.status),
    {
        let mut r: Vec<(Tid, TaskStatus)> = Vec::new();
        let mut i: usize = 0;
        while i < self.map.len()
            invariant
                i <= self.map@.len(),
                r@.len() == i,
                forall|k: int| 0 <= k < i ==> #[trigger] r@[k] == (self.map@[k].0, self.map@[k].1.status),
            decreases self.map@.len() - i,
        {
            r.push((self.map[i].0, self.map[i].1.status));
            i = i + 1;
        }
        r
    }
}


/// The outcome of a `wait4` that does not block: the id of a zombie child
/// and its exit code, or id 0 when there is none yet.
#[derive(Clone, Copy, Debug, PartialEq, Eq, Structural)]
pub struct WaitResult {
    pub tid: usize,
    pub exit_code: i32,
}

/// The entry of task `t`, if any.
pub open spec fn entry_of(s: Seq<(Tid, TaskControlBlock)>, t: Tid) -> Option<TaskControlBlock> {
    if has_tid(s, t) { Some(tcb_of(s, t)) } else { None }
}

/// The first zombie among `children` looked up in `s`, stopping at the
/// first child without an entry.
pub open spec fn first_zombie(s: Seq<(Tid, TaskControlBlock)>, children: Seq<Tid>) -> Option<usize>
    decreases children.len(),
{
    if children.len() == 0 {
        None
    } else {
        match entry_of(s, children[0]) {
            None => None,
            Some(c) => if c.status == TaskStatus::Zombie {
                Some(children[0].0)
            } else {
                first_zombie(s, children.drop_first())
            },
        }
    }
}

proof fn lemma_first_zombie_is_zombie(s: Seq<(Tid, TaskControlBlock)>, children: Seq<Tid>)
    ensures
        first_zombie(s, children) matches Some(x) ==> children.contains(Tid(x)) && has_tid(s, Tid(x))
            && tcb_of(s, Tid(x)).status == TaskStatus::Zombie,
    decreases children.len(),
{
    if children.len() > 0 {
        lemma_first_zombie_is_zombie(s, children.drop_first());
        if let Some(x) = first_zombie(s, children) {
            if entry_of(s, children[0]) is Some && entry_of(s, children[0])->Some_0.status == TaskStatus::Zombie {
                assert(Tid(x) == children[0]);
                assert(children.contains(children[0]));
            } else {
                let j = choose|j: int| 0 <= j < children.drop_first().len() && children.drop_first()[j] == Tid(x);
                assert(children[j + 1] == Tid(x));
            }
        }
    }
}

/// `wait4` without blocking reports only exited children: a nonzero id in
/// its result is a child of the caller whose task is a zombie, and it is
/// the child asked for when a positive `pid` names one.
pub proof fn lemma_wait_reports_only_zombies(current: Option<Tid>, pid: isize, nohang: bool,
    s0: Seq<(Tid, TaskControlBlock)>, s1: Seq<(Tid, TaskControlBlock)>, r: Option<WaitResult>)
    requires
        wait4_post(current, pid, nohang, s0, s1, r),
        r matches Some(w) && w.tid != 0,
    ensures
        current is Some,
        has_tid(s0, current->Some_0),
        tcb_of(s0, current->Some_0).children@.contains(Tid(r->Some_0.tid)),
        has_tid(s0, Tid(r->Some_0.tid)),
        tcb_of(s0, Tid(r->Some_0.tid)).status == TaskStatus::Zombie,
        r->Some_0.exit_code == tcb_of(s0, Tid(r->Some_0.tid)).exit_code,
        pid > 0 ==> r->Some_0.tid == pid as usize,
{
    let c = current->Some_0;
    let target = if pid <= 0 { None::<Tid> } else { Some(Tid(pid as usize)) };
    if has_tid(s0, c) {
        lemma_first_zombie_is_zombie(s0, tcb_of(s0, c).children@);
    }
}

proof fn lemma_first_zombie_none(s: Seq<(Tid, TaskControlBlock)>, children: Seq<Tid>)
    requires
        first_zombie(s, children) is None,
        forall|j: int| 0 <= j < children.len() ==> has_tid(s, #[trigger] children[j]),
    ensures
        forall|j: int| 0 <= j < children.len() ==> tcb_of(s, #[trigger] children[j]).status != TaskStatus::Zombie,
    decreases children.len(),
{
    if children.len() > 0 {
        assert(has_tid(s, children[0]));
        assert forall|j: int| 0 <= j < children.drop_first().len() implies has_tid(s, #[trigger] children.drop_first()[j]) by {
            assert(children.drop_first()[j] == children[j + 1]);
        }
        lemma_first_zombie_none(s, children.drop_first());
        assert forall|j: int| 0 <= j < children.len() implies tcb_of(s, #[trigger] children[j]).status != TaskStatus::Zombie by {
            if j > 0 {
                assert(children.drop_first()[j - 1] == children[j]);
            }
        }
    }
}

/// `wait4` without blocking answers "nothing yet" (id 0) only when no
/// child it may report has exited: the child asked for by a positive
/// `pid` is not a zombie child of the caller, and without a `pid` no child
/// of the caller (all of whose children have entries) is a zombie.
pub proof fn lemma_wait_zero_means_no_zombie(current: Option<Tid>, pid: isize,
    s0: Seq<(Tid, TaskControlBlock)>, s1: Seq<(Tid, TaskControlBlock)>, r: Option<WaitResult>)
    requires
        wait4_post(current, pid, true, s0, s1, r),
        current is Some,
        has_tid(s0, current->Some_0),
        r matches Some(w) && w.tid == 0,
        forall|j: int| 0 <= j < tcb_of(s0, current->Some_0).children@.len()
            ==> #[trigger] tcb_of(s0, current->Some_0).children@[j].0 != 0,
    ensures
        pid > 0 ==> !(tcb_of(s0, current->Some_0).children@.contains(Tid(pid as usize)) && has_tid(s0, Tid(pid as usize))
            && tcb_of(s0, Tid(pid as usize)).status == TaskStatus::Zombie),
        pid <= 0 && (forall|j: int| 0 <= j < tcb_of(s0, current->Some_0).children@.len()
            ==> has_tid(s0, #[trigger] tcb_of(s0, current->Some_0).children@[j]))
            ==> forall|j: int| 0 <= j < tcb_of(s0, current->Some_0).children@.len()
                ==> tcb_of(s0, #[trigger] tcb_of(s0, current->Some_0).children@[j]).status != TaskStatus::Zombie,
{
    let c = current->Some_0;
    let ch = tcb_of(s0, c).children@;
    lemma_first_zombie_is_zombie(s0, ch);
    if pid > 0 {
        if ch.contains(Tid(pid as usize)) {
            let j = choose|j: int| 0 <= j < ch.len() && ch[j] == Tid(pid as usize);
            assert(ch[j].0 != 0);
        }
    } else {
        if first_zombie(s0, ch) is Some {
            let x = first_zombie(s0, ch)->Some_0;
            let j = choose|j: int| 0 <= j < ch.len() && ch[j] == Tid(x);
            assert(ch[j].0 != 0);
        }
        if forall|j: int| 0 <= j < ch.len() ==> has_tid(s0, #[trigger] ch[j]) {
            lemma_first_zombie_none(s0, ch);
        }
    }
}

/// The zombie child `wait4` reports: `target` when it is a zombie child
/// of `parent`, or, without a target, the first zombie child.
pub open spec fn zombie_of(s: Seq<(Tid, TaskControlBlock)>, parent: Tid, target: Option<Tid>) -> Option<usize> {
    match entry_of(s, parent) {
        None => None,
        Some(p) => match target {
            Some(t) => if p.children@.contains(t) && entry_of(s, t) is Some
                && entry_of(s, t)->Some_0.status == TaskStatus::Zombie { Some(t.0) } else { None },
            None => first_zombie(s, p.children@),
        },
    }
}

/// The zombie child of `parent` that `wait4` reports.
fn find_zombie_child(tasks: &Tasks, parent: Tid, target: Option<Tid>) -> (r: Option<usize>)
    requires
        tids_sorted(tasks.entries()),
    ensures
        r == zombie_of(tasks.entries(), parent, target),
{
    let s = &tasks.map;
    let pi = match tasks.find(parent) {
        Some(i) => i,
        None => return None,
    };
    let children = &s[pi].1.children;
    match target {
        Some(t) => {
            let mut k: usize = 0;
            while k < children.len() && children[k].0 != t.0
                invariant
                    k <= children@.len(),
                    forall|j: int| 0 <= j < k ==> children@[j] != t,
                decreases children@.len() - k,
            {
                k = k + 1;
            }
            if k == children.len() {
                return None;
            }
            proof {
                assert(children@[k as int] == t);
            }
            match tasks.find(t) {
                None => None,
                Some(ti) => if s[ti].1.status == TaskStatus::Zombie { Some(t.0) } else { None },
            }
        },
        None => {
            let ghost cs = children@;
            let mut k: usize = 0;
            proof {
                lemma_index_of(s@, pi as int);
                assert(cs.skip(0) =~= cs);
                assert(zombie_of(s@, parent, target) == first_zombie(s@, cs));
            }
            while k < children.len()
                invariant
                    zombie_of(s@, parent, target) == first_zombie(s@, cs),
                    k <= cs.len(),
                    cs == children@,
                    tids_sorted(s@),
                    s@ == tasks.entries(),
                    first_zombie(s@, cs) == first_zombie(s@, cs.skip(k as int)),
                decreases cs.len() - k,
            {
                let c = children[k];
                proof {
                    assert(cs.skip(k as int).drop_first() =~= cs.skip(k + 1));
                    assert(cs.skip(k as int)[0] == c);
                }
                match tasks.find(c) {
                    None => {
                        proof {
                            assert(entry_of(s@, c) is None);
                        }
                        return None;
                    },
                    Some(ci) => {
                        proof {
                            assert(entry_of(s@, c) == Some(s@[ci as int].1));
                        }
                        if s[ci].1.status == TaskStatus::Zombie {
                            return Some(c.0);
                        }
                    },
                }
                k = k + 1;
            }
            proof {
                assert(cs.skip(k as int) =~= Seq::<Tid>::empty());
            }
            None
        },
    }
}

/// The effect of `wait4` on the task table: `s0` before, `s1` after.
pub open spec fn wait4_post(current: Option<Tid>, pid: isize, nohang: bool, s0: Seq<(Tid, TaskControlBlock)>, s1: Seq<(Tid, TaskControlBlock)>, r: Option<WaitResult>) -> bool {
    &&& s1.len() == s0.len()
    &&& forall|k: int| 0 <= k < s0.len() ==> (#[trigger] s1[k]).0 == s0[k].0
    &&& match current {
        None => r is None && s1 == s0,
        Some(c) => {
            let target = if pid <= 0 { None::<Tid> } else { Some(Tid(pid as usize)) };
            if nohang {
                &&& s1 == s0
                &&& r == Some(match zombie_of(s0, c, target) {
                    None => WaitResult { tid: 0, exit_code: 0 },
                    Some(t) => WaitResult {
                        tid: t,
                        exit_code: match entry_of(s0, Tid(t)) { Some(e) => e.exit_code, None => 0 },
                    },
                })
            } else {
                &&& r is None
                &&& forall|k: int| 0 <= k < s0.len() ==> {
                    let a = s0[k].1;
                    let b = #[trigger] s1[k].1;
                    if s0[k].0 == c {
                        b.status == TaskStatus::Waiting && b.exit_code == a.exit_code && b.children@ == a.children@
                            && b.parent == a.parent
                    } else {
                        same_tcb(a, b)
                    }
                }
            }
        },
    }
}

/// `wait4` for the task `current`: without blocking, the zombie child
/// chosen by `zombie_of` with its exit code, or id 0; when blocking, the
/// task is marked waiting and `None` is returned.  `pid <= 0` waits for
/// any child.
pub fn wait4(tasks: &mut Tasks, current: Option<Tid>, pid: isize, nohang: bool) -> (r: Option<WaitResult>)
    requires
        tids_sorted(old(tasks).entries()),
    ensures
        tids_sorted(final(tasks).entries()),
        final(tasks).last() == old(tasks).last(),
        wait4_post(current, pid, nohang, old(tasks).entries(), final(tasks).entries(), r),
{
    let c = match current {
        Some(c) => c,
        None => return None,
    };
    let target = if pid <= 0 { None } else { Some(Tid(pid as usize)) };
    if nohang {
        match find_zombie_child(tasks, c, target) {
            None => Some(WaitResult { tid: 0, exit_code: 0 }),
            Some(t) => {
                let exit_code = match tasks.find(Tid(t)) {
                    Some(i) => tasks.map[i].1.exit_code,
                    None => 0,
                };
                Some(WaitResult { tid: t, exit_code })
            },
        }
    } else {
        let ghost s0 = tasks.map@;
        if let Some(i) = tasks.find(c) {
            let (t, mut tcb) = tasks.map.remove(i);
            tcb.status = TaskStatus::Waiting;
            tasks.map.insert(i, (t, tcb));
            proof {
                assert(tasks.map@ =~= s0.update(i as int, (t, tcb)));
                assert forall|k: int| 0 <= k < s0.len() && k != i implies s0[k].0 != c by {
                    if k < i { assert(s0[k].0.0 < s0[i as int].0.0); } else { assert(s0[i as int].0.0 < s0[k].0.0); }
                }
                assert forall|a: int, b: int| 0 <= a < b < tasks.map@.len() implies
                    (#[trigger] tasks.map@[a]).0.0 < (#[trigger] tasks.map@[b]).0.0 by {
                    assert(tasks.map@[a].0 == s0[a].0 && tasks.map@[b].0 == s0[b].0);
                }
            }
        } else {
            proof {
                assert forall|k: int| 0 <= k < s0.len() implies s0[k].0 != c by {
                    if s0[k].0 == c { assert(has_tid(s0, c)); }
                }
            }
        }
        None
    }
}

/// The effect of `exit` on the task table: `s0` before, `s1` after.
pub open spec fn exit_post(current: Option<Tid>, code: i32, s0: Seq<(Tid, TaskControlBlock)>, s1: Seq<(Tid, TaskControlBlock)>) -> bool {
    &&& s1.len() == s0.len()
    &&& forall|k: int| 0 <= k < s0.len() ==> (#[trigger] s1[k]).0 == s0[k].0
    &&& forall|k: int| 0 <= k < s0.len() ==> {
        let t = s0[k].0;
        let a = s0[k].1;
        let b = #[trigger] s1[k].1;
        if current == Some(t) {
            &&& b.status == TaskStatus::Zombie
            &&& b.exit_code == code
            &&& b.children@.len() == 0
            &&& b.parent == a.parent && b.priority == a.priority && b.trap_context == a.trap_context
            &&& b.memory_set.mappings@ == a.memory_set.mappings@
        } else if t == Tid(1) && current is Some && has_tid(s0, current->Some_0) {
            &&& b.children@ == a.children@ + tcb_of(s0, current->Some_0).children@
            &&& b.parent == a.parent && b.status == a.status && b.exit_code == a.exit_code
            &&& b.priority == a.priority && b.trap_context == a.trap_context
            &&& b.memory_set.mappings@ == a.memory_set.mappings@
            &&& b.memory_set.user_root_page_table == a.memory_set.user_root_page_table
        } else {
            same_tcb(a, b)
        }
    }
}

/// `exit` of the task `current` with `code`: it becomes a zombie with that
/// exit code and its children are handed to task 1.
pub fn exit(tasks: &mut Tasks, current: Option<Tid>, code: i32)
    requires
        tids_sorted(old(tasks).entries()),
        current != Some(Tid(1)),
    ensures
        tids_sorted(final(tasks).entries()),
        final(tasks).last() == old(tasks).last(),
        exit_post(current, code, old(tasks).entries(), final(tasks).entries()),
{
    let tid = match current {
        Some(t) => t,
        None => return,
    };
    let ghost s0 = tasks.map@;
    let i = match tasks.find(tid) {
        Some(i) => i,
        None => {
            proof {
                assert forall|k: int| 0 <= k < s0.len() implies s0[k].0 != tid by {
                    if s0[k].0 == tid { assert(has_tid(s0, tid)); }
                }
            }
            return;
        },
    };
    let (t, mut tcb) = tasks.map.remove(i);
    tcb.exit_code = code;
    tcb.status = TaskStatus::Zombie;
    let mut children: Vec<Tid> = Vec::new();
    core::mem::swap(&mut children, &mut tcb.children);
    tasks.map.insert(i, (t, tcb));
    let ghost s1 = tasks.map@;
    proof {
        assert(s1 =~= s0.update(i as int, (t, tcb)));
        assert forall|k: int| 0 <= k < s0.len() && k != i implies s0[k].0 != tid by {
            if k < i { assert(s0[k].0.0 < s0[i as int].0.0); } else { assert(s0[i as int].0.0 < s0[k].0.0); }
        }
        assert forall|a: int, b: int| 0 <= a < b < s1.len() implies (#[trigger] s1[a]).0.0 < (#[trigger] s1[b]).0.0 by {
            assert(s1[a].0 == s0[a].0 && s1[b].0 == s0[b].0);
        }
        lemma_index_of(s0, i as int);
    }
    if let Some(j) = tasks.find(Tid(1)) {
        let (t1, mut init) = tasks.map.remove(j);
        let ghost c0 = init.children@;
        let ghost ch = children@;
        init.children.append(&mut children);
        proof {
            assert(init.children@ == c0 + ch);
        }
        tasks.map.insert(j, (t1, init));
        proof {
            assert(tasks.map@ =~= s1.update(j as int, (t1, init)));
            assert(j != i);
            assert forall|k2: int| 0 <= k2 < s1.len() && k2 != j implies s1[k2].0 != Tid(1) by {
                if k2 < j { assert(s1[k2].0.0 < s1[j as int].0.0); } else { assert(s1[j as int].0.0 < s1[k2].0.0); }
            }
            assert forall|a: int, b: int| 0 <= a < b < tasks.map@.len() implies
                (#[trigger] tasks.map@[a]).0.0 < (#[trigger] tasks.map@[b]).0.0 by {
                assert(tasks.map@[a].0 == s1[a].0 && tasks.map@[b].0 == s1[b].0);
            }
        }
    } else {
        proof {
            assert forall|k2: int| 0 <= k2 < s1.len() implies s1[k2].0 != Tid(1) by {
                if s1[k2].0 == Tid(1) { assert(has_tid(s1, Tid(1))); }
            }
        }
    }
}

/// The effect of `clone_task` on the task table: `s0` before, `s1` after.
pub open spec fn clone_task_post(current: Option<Tid>, frame: [u64; 32], sepc: u64, s0: Seq<(Tid, TaskControlBlock)>, s1: Seq<(Tid, TaskControlBlock)>, u0: Set<usize>, u1: Set<usize>, r: Result<Tid, Error>) -> bool {
    match r {
        Ok(t) => {
            &&& current is Some
            &&& has_tid(s0, current->Some_0)
            &&& !u0.contains(t.0)
            &&& u1 == u0.insert(t.0)
            &&& has_tid(s1, t)
            &&& tcb_of(s1, t).parent == current
            &&& tcb_of(s1, t).status == TaskStatus::Running
            &&& tcb_of(s1, t).trap_context.context@ == frame@.update(A0_INDEX as int, 0u64)
            &&& tcb_of(s1, t).trap_context.sepc == sepc + 4
            &&& tcb_of(s1, t).exit_code == 0
            &&& tcb_of(s1, t).priority == 0
            &&& tcb_of(s1, t).children@.len() == 0
            &&& tcb_of(s1, t).fd_table@ == tcb_of(s0, current->Some_0).fd_table@
            &&& forall|x: Tid| #[trigger] has_tid(s1, x) == (has_tid(s0, x) || x == t)
            &&& t != current->Some_0 ==> tcb_of(s1, current->Some_0).children@
                == tcb_of(s0, current->Some_0).children@.push(t)
        },
        Err(e) => {
            &&& u1 == u0
            &&& s1 == s0
            &&& (current is None ==> e == Error::Proc(ProcError::NoOtherTask))
            &&& (e == Error::NoTidAvailable ==> forall|t: usize| 1 <= t < TID_MAX ==> #[trigger] u0.contains(t))
        },
    }
}

/// Forks the task `current`: a fresh id, a copy of its control block
/// (see [`TaskControlBlock::try_clone`]) registered as its child.  On a
/// failure the id is returned to `ids`.
pub fn clone_task(
    tasks: &mut Tasks,
    current: Option<Tid>,
    frame: &[u64; 32],
    sepc: u64,
    pt: &mut PageTableManager,
    frames: &mut FrameAllocator,
    ids: &mut TidAllocator,
) -> (r: Result<Tid, Error>)
    requires
        tids_sorted(old(tasks).entries()),
        old(pt).wf(old(frames)),
        old(frames).wf(),
        old(ids).wf(),
        sepc <= u64::MAX - 4,
        (current is Some && has_tid(old(tasks).entries(), current->Some_0))
            ==> ms_wf(tcb_of(old(tasks).entries(), current->Some_0).memory_set.mappings@, old(pt), old(frames)),
    ensures
        tids_sorted(final(tasks).entries()),
        final(frames).wf(),
        final(pt).wf(final(frames)),
        final(ids).wf(),
        clone_task_post(current, *frame, sepc, old(tasks).entries(), final(tasks).entries(), old(ids).used(), final(ids).used(), r),
{
    let tid = match current {
        Some(t) => t,
        None => return Err(Error::Proc(ProcError::NoOtherTask)),
    };
    let new_tid = match ids.allocate() {
        Some(t) => t,
        None => return Err(Error::NoTidAvailable),
    };
    let cloned = match tasks.find(tid) {
        Some(i) => tasks.map[i].1.try_clone(tid, new_tid, frame, sepc, pt, frames),
        None => Err(Error::Proc(ProcError::NoOtherTask)),
    };
    match cloned {
        Ok(tcb) => {
            tasks.add(new_tid, Some(tid), tcb);
            Ok(new_tid)
        },
        Err(e) => {
            let _ = ids.dealloc(new_tid);
            proof {
                assert(ids.used() =~= old(ids).used());
            }
            Err(e)
        },
    }
}

} // verus!
