use athera::constants::USER_STACK_LOWER_BOUND;
use athera::mem::frame::FrameAllocator;
use athera::mem::page_table::PageTableManager;
use athera::mm::memory_map::{mmap, mremap, munmap, MemOp};
use athera::syscall::abi::{ErrorCode, MAP_ANONYMOUS, MAP_FIXED, MAP_PRIVATE, MREMAP_FIXED, MREMAP_MAYMOVE, PROT_READ, PROT_WRITE};
use athera::task::{MemorySet, TaskControlBlock, TaskStatus, Tasks, Tid, TrapContext};

struct World {
    frames: FrameAllocator,
    pt: PageTableManager,
    tasks: Tasks,
    ops: Vec<MemOp>,
}

fn world() -> World {
    world_with(0x8400_0000)
}

fn world_with(end: u64) -> World {
    let mut frames = FrameAllocator::new(0x8000_0000, end);
    let mut pt = PageTableManager::new(&mut frames).unwrap();
    pt.create_user_address_space(Tid(1), &mut frames).unwrap();
    let root = pt.user_root_addr(Tid(1)).unwrap();
    let mut tasks = Tasks::new();
    tasks.add(
        Tid(1),
        None,
        TaskControlBlock {
            parent: None,
            children: Vec::new(),
            status: TaskStatus::Running,
            memory_set: MemorySet { mappings: Vec::new(), user_root_page_table: root },
            trap_context: TrapContext { context: [0; 32], satp: 0, sepc: 0, sstatus: 0 },
            exit_code: 0,
            priority: 0,
            fd_table: Vec::new(),
        },
    );
    World { frames, pt, tasks, ops: Vec::new() }
}

const ANON: u64 = MAP_PRIVATE | MAP_ANONYMOUS;
const RW: u64 = PROT_READ | PROT_WRITE;

fn map(w: &mut World, addr: u64, len: u64, flags: u64) -> Result<u64, ErrorCode> {
    mmap(Tid(1), addr, len, RW, flags, -1, 0, &mut w.tasks, &mut w.pt, &mut w.frames, &mut w.ops)
}

fn mappings(w: &World) -> Vec<(u64, u64)> {
    w.tasks.map[0].1.memory_set.mappings.iter().map(|m| (m.va.0, m.frame.size)).collect()
}

#[test]
fn mmap_places_anonymous_memory_below_the_stack() {
    let mut w = world();
    let a = map(&mut w, 0, 8192, ANON).unwrap();
    assert_eq!(a, USER_STACK_LOWER_BOUND - 8192);
    let b = map(&mut w, 0, 100, ANON).unwrap();
    assert_eq!(b, a - 4096);
    assert_eq!(mappings(&w).len(), 2);
}

#[test]
fn mmap_rejects_what_it_does_not_support() {
    let mut w = world();
    assert_eq!(map(&mut w, 0, 4096, MAP_PRIVATE), Err(ErrorCode::ENOSYS));
    assert_eq!(map(&mut w, 0, 0, ANON), Err(ErrorCode::EINVAL));
    assert_eq!(mmap(Tid(1), 0, 4096, RW, ANON, 3, 0, &mut w.tasks, &mut w.pt, &mut w.frames, &mut w.ops), Err(ErrorCode::EINVAL));
    assert_eq!(mmap(Tid(1), 0, 4096, 0x100, ANON, -1, 0, &mut w.tasks, &mut w.pt, &mut w.frames, &mut w.ops), Err(ErrorCode::EINVAL));
    assert_eq!(mmap(Tid(9), 0, 4096, RW, ANON, -1, 0, &mut w.tasks, &mut w.pt, &mut w.frames, &mut w.ops), Err(ErrorCode::ESRCH));
    assert!(mappings(&w).is_empty());
}

#[test]
fn mmap_fixed_uses_the_given_address() {
    let mut w = world();
    let a = map(&mut w, 0x4000_0000, 4096, ANON | MAP_FIXED).unwrap();
    assert_eq!(a, 0x4000_0000);
    assert_eq!(mappings(&w), vec![(0x4000_0000, 4096)]);
}

#[test]
fn munmap_removes_whole_mappings() {
    let mut w = world();
    let a = map(&mut w, 0, 4096, ANON).unwrap();
    let b = map(&mut w, 0, 4096, ANON).unwrap();
    assert_eq!(munmap(Tid(1), a, 4096, &mut w.tasks, &mut w.pt, &mut w.frames, &mut w.ops), Ok(()));
    assert_eq!(mappings(&w), vec![(b, 4096)]);
    assert_eq!(munmap(Tid(1), a + 1, 4096, &mut w.tasks, &mut w.pt, &mut w.frames, &mut w.ops), Err(ErrorCode::EINVAL));
}

#[test]
fn mremap_can_move_a_mapping_to_grow_it() {
    let mut w = world();
    let a = map(&mut w, 0, 4096, ANON).unwrap();
    let _b = map(&mut w, 0, 4096, ANON).unwrap();
    let c = mremap(Tid(1), a, 4096, 3 * 4096, MREMAP_MAYMOVE, 0, &mut w.tasks, &mut w.pt, &mut w.frames, &mut w.ops).unwrap();
    assert_eq!(c % 4096, 0);
    let m = mappings(&w);
    assert!(m.iter().any(|&(va, size)| va == c && size >= 3 * 4096));
    assert!(!m.iter().any(|&(va, _)| va == a && a != c));
}

#[test]
fn mremap_same_size_requires_a_mapped_range() {
    let mut w = world();
    let a = map(&mut w, 0x4000_0000, 4096, ANON | MAP_FIXED).unwrap();
    assert_eq!(mremap(Tid(1), a, 4096, 4096, 0, 0, &mut w.tasks, &mut w.pt, &mut w.frames, &mut w.ops), Ok(a));
    assert_eq!(mremap(Tid(1), a, 8192, 8192, 0, 0, &mut w.tasks, &mut w.pt, &mut w.frames, &mut w.ops), Err(ErrorCode::EFAULT));
    assert_eq!(mremap(Tid(1), a, 4096, 0x1800, MREMAP_MAYMOVE, 0, &mut w.tasks, &mut w.pt, &mut w.frames, &mut w.ops), Err(ErrorCode::EINVAL));
}

#[test]
fn mremap_fixed_needs_a_free_target() {
    let mut w = world();
    let a = map(&mut w, 0x4000_0000, 4096, ANON | MAP_FIXED).unwrap();
    let b = map(&mut w, 0x4000_1000, 4096, ANON | MAP_FIXED).unwrap();
    assert!(mremap(Tid(1), a, 4096, 8192, MREMAP_FIXED | MREMAP_MAYMOVE, b, &mut w.tasks, &mut w.pt, &mut w.frames, &mut w.ops).is_err());
    assert_eq!(mappings(&w), vec![(a, 4096), (b, 4096)]);
    let c = mremap(Tid(1), a, 4096, 8192, MREMAP_FIXED | MREMAP_MAYMOVE, 0x6000_0000, &mut w.tasks, &mut w.pt, &mut w.frames, &mut w.ops);
    assert_eq!(c, Ok(0x6000_0000));
}

fn frames_of(w: &World) -> Vec<(u64, u64)> {
    w.tasks.map[0].1.memory_set.mappings.iter().map(|m| (m.va.0, m.frame.start)).collect()
}

#[test]
fn mmap_asks_for_zeroed_memory() {
    let mut w = world();
    let a = map(&mut w, 0, 100, ANON).unwrap();
    let f = frames_of(&w)[0];
    assert_eq!(f.0, a);
    assert_eq!(w.ops, vec![MemOp::Zero { at: f.1, len: 4096 }]);
}

#[test]
fn munmap_of_a_middle_page_copies_the_rest() {
    let mut w = world();
    // Three pages take a block of four.
    let a = map(&mut w, 0x4000_0000, 3 * 4096, ANON | MAP_FIXED).unwrap();
    let old = frames_of(&w)[0].1;
    w.ops.clear();
    assert_eq!(munmap(Tid(1), a + 4096, 4096, &mut w.tasks, &mut w.pt, &mut w.frames, &mut w.ops), Ok(()));
    let f = frames_of(&w);
    assert_eq!(f.len(), 2);
    assert_eq!(w.ops, vec![
        MemOp::Copy { from: old, to: f[0].1, len: 4096 },
        MemOp::Copy { from: old + 2 * 4096, to: f[1].1, len: 2 * 4096 },
    ]);
}

#[test]
fn mremap_growth_keeps_the_contents() {
    let mut w = world();
    let a = map(&mut w, 0x4000_0000, 4096, ANON | MAP_FIXED).unwrap();
    let old = frames_of(&w)[0].1;
    w.ops.clear();
    let b = mremap(Tid(1), a, 4096, 8192, 0, 0, &mut w.tasks, &mut w.pt, &mut w.frames, &mut w.ops).unwrap();
    assert_eq!(b, a);
    let f = frames_of(&w);
    assert_eq!(f.len(), 1);
    assert_eq!(w.ops, vec![
        MemOp::Zero { at: f[0].1, len: 8192 },
        MemOp::Copy { from: old, to: f[0].1, len: 4096 },
    ]);
}

#[test]
fn mmap_fails_only_for_want_of_memory() {
    // Root tables take two pages; a one-page mapping needs its block and
    // two more tables.
    let mut w = world_with(0x8000_0000 + 5 * 4096);
    assert_eq!(map(&mut w, 0, 4096, ANON), Ok(USER_STACK_LOWER_BOUND - 4096));
    let mut w = world_with(0x8000_0000 + 4 * 4096);
    assert_eq!(map(&mut w, 0, 4096, ANON), Err(ErrorCode::ENOMEM));
    assert!(mappings(&w).is_empty());
}

#[test]
fn mremap_shrinks_in_place() {
    let mut w = world();
    let a = map(&mut w, 0x4000_0000, 2 * 4096, ANON | MAP_FIXED).unwrap();
    assert_eq!(mremap(Tid(1), a, 2 * 4096, 4096, 0, 0, &mut w.tasks, &mut w.pt, &mut w.frames, &mut w.ops), Ok(a));
    assert_eq!(mappings(&w), vec![(a, 4096)]);
}

#[test]
fn munmap_of_an_unmapped_range_changes_nothing() {
    let mut w = world();
    let a = map(&mut w, 0x4000_0000, 4096, ANON | MAP_FIXED).unwrap();
    w.ops.clear();
    assert_eq!(munmap(Tid(1), 0x5000_0000, 4096, &mut w.tasks, &mut w.pt, &mut w.frames, &mut w.ops), Ok(()));
    assert_eq!(mappings(&w), vec![(a, 4096)]);
    assert!(w.ops.is_empty());
}
