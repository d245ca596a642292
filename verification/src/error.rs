//! Kernel error types.
use vstd::prelude::*;
use crate::mem::page_table::MemError;

verus! {

/// Errors of task management.
#[derive(Clone, Copy, Debug, PartialEq, Eq, Structural)]
pub enum ProcError {
    /// No task is there to run or to act on.
    NoOtherTask,
    /// The program arguments do not fit on the user stack.
    ArgsTooLong,
    /// The program image is not a loadable RISC-V ELF file.
    BadImage,
}

/// Kernel errors.
#[derive(Clone, Copy, Debug, PartialEq, Eq, Structural)]
pub enum Error {
    /// Every task id is taken.
    NoTidAvailable,
    /// A memory-management error.
    Mem(MemError),
    /// A task-management error.
    Proc(ProcError),
}

} // verus!
