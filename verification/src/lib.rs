//! A verified model of a small RISC-V teaching kernel: path handling,
//! a MINIX v1 file system over an in-memory disk, Sv39 page tables,
//! SLUB-style object caches, task bookkeeping and anonymous memory maps.

pub mod constants;
pub mod error;
pub mod exec;
pub mod mem;
pub mod task;
pub mod fs;
pub mod syscall;
pub mod mm;
pub mod sync;
pub mod log;
pub mod sched;
pub mod rand;
