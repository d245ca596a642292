use athera::mem::addr::PhysicalAddr;
use athera::mem::frame::FrameAllocator;
use athera::mem::page_table::PageTableManager;
use athera::sched::{save_current, switch};
use athera::fs::vfs::OpenFlags;
use athera::syscall::{file_for_fd, read_target, write_target, FdError};
use athera::task::{
    alloc_tid, clone_task, dealloc_tid, exit, std_fds, wait4, FileKind, MemorySet, OpenFile, TaskControlBlock,
    TaskStatus, Tasks, Tid, TidAllocator, TrapContext,
};

fn tcb(parent: Option<Tid>, status: TaskStatus) -> TaskControlBlock {
    TaskControlBlock {
        parent,
        children: Vec::new(),
        status,
        memory_set: MemorySet { mappings: Vec::new(), user_root_page_table: PhysicalAddr(0) },
        trap_context: TrapContext { context: [0; 32], satp: 0, sepc: 0x1000, sstatus: 0 },
        exit_code: 0,
        priority: 0,
        fd_table: std_fds(),
    }
}

fn entry(tasks: &Tasks, t: usize) -> &TaskControlBlock {
    &tasks.map.iter().find(|(id, _)| id.0 == t).unwrap().1
}

#[test]
fn tid_allocator_hands_out_lowest_then_reuses() {
    let mut ids = TidAllocator::new();
    assert_eq!(alloc_tid(&mut ids), Some(Tid(1)));
    assert_eq!(alloc_tid(&mut ids), Some(Tid(2)));
    assert_eq!(ids.allocate(), Some(Tid(3)));
    dealloc_tid(Tid(2), &mut ids);
    assert_eq!(ids.allocate(), Some(Tid(2)));
    assert!(!ids.dealloc(Tid(77)));
    assert!(ids.dealloc(Tid(1)));
}

#[test]
fn tid_allocator_runs_out() {
    let mut ids = TidAllocator::new();
    for _ in 1..4096 {
        assert!(ids.allocate().is_some());
    }
    assert_eq!(ids.allocate(), None);
}

#[test]
fn table_keeps_ids_sorted_and_links_children() {
    let mut tasks = Tasks::new();
    tasks.add(Tid(1), None, tcb(None, TaskStatus::Running));
    tasks.add(Tid(5), Some(Tid(1)), tcb(Some(Tid(1)), TaskStatus::Running));
    tasks.add(Tid(3), None, tcb(None, TaskStatus::Running));
    let ids: Vec<usize> = tasks.map.iter().map(|(t, _)| t.0).collect();
    assert_eq!(ids, vec![1, 3, 5]);
    assert_eq!(entry(&tasks, 1).children, vec![Tid(5), Tid(3)]);
    assert_eq!(tasks.find(Tid(3)), Some(1));
    assert_eq!(tasks.find(Tid(4)), None);
}

#[test]
fn round_robin_skips_tasks_that_are_not_running() {
    let mut tasks = Tasks::new();
    tasks.add(Tid(1), None, tcb(None, TaskStatus::Running));
    tasks.add(Tid(2), None, tcb(None, TaskStatus::Sleeping));
    tasks.add(Tid(3), None, tcb(None, TaskStatus::Running));
    let order: Vec<usize> = (0..4).map(|_| tasks.spawn_current().unwrap().tid.0).collect();
    assert_eq!(order, vec![1, 3, 1, 3]);
}

#[test]
fn switch_on_an_empty_table_waits() {
    let mut tasks = Tasks::new();
    assert!(switch(&mut tasks).is_none());
    tasks.add(Tid(1), None, tcb(None, TaskStatus::Running));
    assert_eq!(switch(&mut tasks).unwrap().tid, Tid(1));
}

#[test]
fn save_current_stores_the_registers() {
    let mut tasks = Tasks::new();
    tasks.add(Tid(1), None, tcb(None, TaskStatus::Running));
    let mut frame = [0u64; 32];
    frame[10] = 42;
    save_current(&mut tasks, Some(Tid(1)), &frame, 0x2000, 0x22, 0x8000_0000_0008_0000);
    let t = entry(&tasks, 1);
    assert_eq!(t.trap_context.context[10], 42);
    assert_eq!(t.trap_context.sepc, 0x2000);
    assert_eq!(t.trap_context.sstatus, 0x22);
    save_current(&mut tasks, Some(Tid(9)), &frame, 0, 0, 0);
    save_current(&mut tasks, None, &frame, 0, 0, 0);
    assert_eq!(entry(&tasks, 1).trap_context.sepc, 0x2000);
}

#[test]
fn exit_makes_a_zombie_and_hands_children_to_task_one() {
    let mut tasks = Tasks::new();
    tasks.add(Tid(1), None, tcb(None, TaskStatus::Running));
    tasks.add(Tid(2), Some(Tid(1)), tcb(Some(Tid(1)), TaskStatus::Running));
    tasks.add(Tid(3), Some(Tid(2)), tcb(Some(Tid(2)), TaskStatus::Running));
    exit(&mut tasks, Some(Tid(2)), 7);
    let t = entry(&tasks, 2);
    assert_eq!(t.status, TaskStatus::Zombie);
    assert_eq!(t.exit_code, 7);
    assert!(t.children.is_empty());
    assert_eq!(entry(&tasks, 1).children, vec![Tid(2), Tid(3)]);
}

#[test]
fn wait4_without_blocking_reports_a_zombie_child() {
    let mut tasks = Tasks::new();
    tasks.add(Tid(1), None, tcb(None, TaskStatus::Running));
    tasks.add(Tid(2), Some(Tid(1)), tcb(Some(Tid(1)), TaskStatus::Running));
    let r = wait4(&mut tasks, Some(Tid(1)), -1, true).unwrap();
    assert_eq!((r.tid, r.exit_code), (0, 0));
    exit(&mut tasks, Some(Tid(2)), 3);
    let r = wait4(&mut tasks, Some(Tid(1)), -1, true).unwrap();
    assert_eq!((r.tid, r.exit_code), (2, 3));
    let r = wait4(&mut tasks, Some(Tid(1)), 2, true).unwrap();
    assert_eq!((r.tid, r.exit_code), (2, 3));
    let r = wait4(&mut tasks, Some(Tid(1)), 5, true).unwrap();
    assert_eq!(r.tid, 0);
}

#[test]
fn wait4_blocking_marks_the_caller_waiting() {
    let mut tasks = Tasks::new();
    tasks.add(Tid(1), None, tcb(None, TaskStatus::Running));
    assert!(wait4(&mut tasks, Some(Tid(1)), -1, false).is_none());
    assert_eq!(entry(&tasks, 1).status, TaskStatus::Waiting);
    assert!(wait4(&mut tasks, None, -1, true).is_none());
}

#[test]
fn clone_task_makes_a_running_child() {
    let mut frames = FrameAllocator::new(0x8000_0000, 0x8100_0000);
    let mut pt = PageTableManager::new(&mut frames).unwrap();
    pt.create_user_address_space(Tid(1), &mut frames).unwrap();
    let root = pt.user_root_addr(Tid(1)).unwrap();
    let mut ids = TidAllocator::new();
    assert_eq!(ids.allocate(), Some(Tid(1)));
    let mut tasks = Tasks::new();
    let mut parent = tcb(None, TaskStatus::Running);
    parent.memory_set.user_root_page_table = root;
    tasks.add(Tid(1), None, parent);
    let mut frame = [0u64; 32];
    frame[10] = 220;
    frame[11] = 5;
    let child = clone_task(&mut tasks, Some(Tid(1)), &frame, 0x4000, &mut pt, &mut frames, &mut ids).unwrap();
    assert_eq!(child, Tid(2));
    let c = entry(&tasks, 2);
    assert_eq!(c.parent, Some(Tid(1)));
    assert_eq!(c.status, TaskStatus::Running);
    assert_eq!(c.trap_context.context[10], 0);
    assert_eq!(c.trap_context.context[11], 5);
    assert_eq!(c.trap_context.sepc, 0x4004);
    assert_eq!(entry(&tasks, 1).children, vec![Tid(2)]);
    assert_eq!(c.fd_table, entry(&tasks, 1).fd_table);
    assert!(clone_task(&mut tasks, None, &frame, 0, &mut pt, &mut frames, &mut ids).is_err());
}

#[test]
fn descriptors_decide_reads_and_writes() {
    let mut tasks = Tasks::new();
    tasks.add(Tid(1), None, tcb(None, TaskStatus::Running));
    let stdin = OpenFile { kind: FileKind::Uart, flags: OpenFlags::read_only() };
    let stdout = OpenFile { kind: FileKind::Uart, flags: OpenFlags::write_only() };
    assert_eq!(file_for_fd(&tasks, Some(Tid(1)), 2), Ok(stdout));
    assert_eq!(file_for_fd(&tasks, Some(Tid(1)), 3), Err(FdError::BadFd));
    assert_eq!(file_for_fd(&tasks, Some(Tid(9)), 0), Err(FdError::BadFd));
    assert_eq!(file_for_fd(&tasks, None, 0), Err(FdError::NoTask));
    assert_eq!(read_target(&tasks, Some(Tid(1)), 0), Ok(stdin));
    assert_eq!(read_target(&tasks, Some(Tid(1)), 1), Err(FdError::NotReadable));
    assert_eq!(write_target(&tasks, Some(Tid(1)), 1), Ok(stdout));
    assert_eq!(write_target(&tasks, Some(Tid(1)), 0), Err(FdError::NotWritable));
}
