# athera

The core of a small RISC-V (Sv39) kernel, written in Verus: each function
carries a `requires` / `ensures` contract that Verus proves.

Layout of `src/`:

- `mem/` — physical frames and their allocator (`frame.rs`,
  `allocators.rs`), SLUB object caches (`slub.rs`), an intrusive free list
  (`list.rs`), addresses (`addr.rs`) and Sv39 page tables
  (`page_table.rs`).
- `mm/memory_map.rs` — a task's memory set and the `mmap`, `munmap` and
  `mremap` system calls; the zeroing and copying of memory contents they
  decide on are handed back to the caller as `MemOp` requests.
- `task.rs`, `sched.rs` — the task table, thread ids, file descriptor
  tables, `clone`, `exit`, `wait4`, and the scheduler.
- `exec.rs` — ELF parsing and loading, the initial user stack, `execve`.
- `fs/` — paths (`path.rs`), an in-memory block device (`disk.rs`), the
  MINIX v1 file system (`minix.rs`), the device file system (`devfs.rs`),
  open files and their operations (`vfs.rs`), MBR partitions (`mbr.rs`).
- `syscall.rs`, `syscall/abi.rs` — system-call dispatch: the decisions are
  made here; reading and writing user memory and devices is handed back
  to the caller as an I/O request.

Laws that relate several functions are public proof functions (for
example `lemma_pop_undoes_push` in `fs/path.rs` and
`lemma_free_undoes_alloc` in `fs/minix.rs`).

`tests/` holds ordinary Rust tests run against the compiled library.

`app/main.rs` is a hosted boot of this core: it builds the allocator and
kernel page tables, reads a MINIX image from the host, and loads a
program from it into a simulated physical memory, carrying out the byte
stores the loader hands back.
