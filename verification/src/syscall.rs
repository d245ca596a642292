//! System call handling.  The call number arrives in `a7`, the arguments
//! in `a0..a5`; the result goes back in `a0`, errors as `-errno`.
//!
//! [`handle`] carries out the calls that only touch kernel state and
//! answers with the I/O the caller must perform for the others.
pub mod abi;

use vstd::prelude::*;
use crate::error::{Error, ProcError};
use crate::fs::fs_error::{FsError, spec_fs_errno};
use crate::mem::frame::FrameAllocator;
use crate::mem::page_table::{MemError, PageTableManager};
use crate::mm::memory_map::{MemOp, mmap, munmap, mremap, mmap_post, munmap_post, mremap_post, task_ms_ok, mmap_args_ok, munmap_args_ok, mremap_args_ok};
use crate::task::{
    Tasks, Tid, TidAllocator, clone_task, exit, wait4, clone_task_post, exit_post, wait4_post, tids_sorted,
    has_tid, tcb_of, A0_INDEX, OpenFile, TaskControlBlock,
};
use crate::fs::vfs::{ACCESS_READ_ONLY, ACCESS_WRITE_ONLY};
use crate::mem::page_table::spec_satp;
use self::abi::{
    ErrorCode, spec_errno, spec_exit_status, exit_status, SYS_READ, SYS_WRITE, SYS_EXIT, SYS_REBOOT, SYS_MUNMAP,
    SYS_MREMAP, SYS_CLONE, SYS_EXECVE, SYS_MMAP, SYS_WAIT4, WNOHANG, REBOOT_CMD_RESTART, REBOOT_CMD_POWER_OFF,
    REBOOT_CMD_HALT,
};

verus! {

/// What a system call does next: return to user space with a value in
/// `a0` and the next `sepc`, or give up the CPU.
#[derive(Clone, Copy, Debug, PartialEq, Eq, Structural)]
pub enum SyscallResult {
    Return(u64, u64),
    Yield,
}

/// The value `a0` carries for an error: the negative error number.
pub open spec fn spec_ret_err(e: ErrorCode) -> u64 {
    spec_errno(e) as u64
}

/// Encodes an error for `a0`.
pub fn ret_err(e: ErrorCode) -> (r: u64)
    ensures
        r == spec_ret_err(e),
{
    let v = e.value();
    v as u64
}

/// The error code a kernel error is reported as.
pub open spec fn spec_errno_of(err: Error) -> ErrorCode {
    match err {
        Error::NoTidAvailable => ErrorCode::EAGAIN,
        Error::Mem(MemError::OutOfMemory) => ErrorCode::ENOMEM,
        Error::Proc(_) => ErrorCode::ESRCH,
        _ => ErrorCode::EINVAL,
    }
}

/// Reports a kernel error as an error code.
pub fn errno_of(err: &Error) -> (r: ErrorCode)
    ensures
        r == spec_errno_of(*err),
{
    match err {
        Error::NoTidAvailable => ErrorCode::EAGAIN,
        Error::Mem(MemError::OutOfMemory) => ErrorCode::ENOMEM,
        Error::Proc(_) => ErrorCode::ESRCH,
        _ => ErrorCode::EINVAL,
    }
}

/// Why a read or write on a file descriptor failed.
#[derive(Clone, Copy, Debug, PartialEq, Eq, Structural)]
pub enum FdError {
    NoTask,
    BadFd,
    NotReadable,
    NotWritable,
    Io(FsError),
}

/// The value `a0` carries for a failed read or write.
pub open spec fn spec_fd_errno(e: FdError) -> u64 {
    match e {
        FdError::NoTask => spec_ret_err(ErrorCode::ESRCH),
        FdError::BadFd | FdError::NotReadable | FdError::NotWritable => spec_ret_err(ErrorCode::EBADF),
        FdError::Io(f) => (-spec_fs_errno(f)) as u64,
    }
}

/// Encodes a failed read or write for `a0`.
pub fn fd_errno(error: FdError) -> (r: u64)
    ensures
        r == spec_fd_errno(error),
{
    match error {
        FdError::NoTask => ret_err(ErrorCode::ESRCH),
        FdError::BadFd | FdError::NotReadable | FdError::NotWritable => ret_err(ErrorCode::EBADF),
        FdError::Io(e) => {
            let n = e.errno();
            (-n) as u64
        },
    }
}

/// The open file behind descriptor `fd` of the task `current` in the
/// task table `s`.
pub open spec fn spec_file_for_fd(s: Seq<(Tid, TaskControlBlock)>, current: Option<Tid>, fd: u64) -> Result<OpenFile, FdError> {
    match current {
        None => Err(FdError::NoTask),
        Some(t) => if has_tid(s, t) && fd < tcb_of(s, t).fd_table@.len() {
            Ok(tcb_of(s, t).fd_table@[fd as int])
        } else {
            Err(FdError::BadFd)
        },
    }
}

/// The file a read of `fd` goes to: refused when it was opened write-only.
pub open spec fn spec_read_target(s: Seq<(Tid, TaskControlBlock)>, current: Option<Tid>, fd: u64) -> Result<OpenFile, FdError> {
    match spec_file_for_fd(s, current, fd) {
        Ok(f) => if f.flags.0 % 4 != ACCESS_WRITE_ONLY { Ok(f) } else { Err(FdError::NotReadable) },
        Err(e) => Err(e),
    }
}

/// The file a write to `fd` goes to: refused when it was opened read-only.
pub open spec fn spec_write_target(s: Seq<(Tid, TaskControlBlock)>, current: Option<Tid>, fd: u64) -> Result<OpenFile, FdError> {
    match spec_file_for_fd(s, current, fd) {
        Ok(f) => if f.flags.0 % 4 != ACCESS_READ_ONLY { Ok(f) } else { Err(FdError::NotWritable) },
        Err(e) => Err(e),
    }
}

/// The open file behind descriptor `fd` of the current task.
pub fn file_for_fd(tasks: &Tasks, current: Option<Tid>, fd: u64) -> (r: Result<OpenFile, FdError>)
    requires
        tids_sorted(tasks.entries()),
    ensures
        r == spec_file_for_fd(tasks.entries(), current, fd),
{
    let t = match current {
        Some(t) => t,
        None => return Err(FdError::NoTask),
    };
    match tasks.open_file(t, fd) {
        Some(f) => Ok(f),
        None => Err(FdError::BadFd),
    }
}

/// The file a read of `fd` by the current task goes to.
pub fn read_target(tasks: &Tasks, current: Option<Tid>, fd: u64) -> (r: Result<OpenFile, FdError>)
    requires
        tids_sorted(tasks.entries()),
    ensures
        r == spec_read_target(tasks.entries(), current, fd),
{
    let f = file_for_fd(tasks, current, fd)?;
    if !f.flags.can_read() {
        return Err(FdError::NotReadable);
    }
    Ok(f)
}

/// The file a write to `fd` by the current task goes to.
pub fn write_target(tasks: &Tasks, current: Option<Tid>, fd: u64) -> (r: Result<OpenFile, FdError>)
    requires
        tids_sorted(tasks.entries()),
    ensures
        r == spec_write_target(tasks.entries(), current, fd),
{
    let f = file_for_fd(tasks, current, fd)?;
    if !f.flags.can_write() {
        return Err(FdError::NotWritable);
    }
    Ok(f)
}

/// The commands `reboot` carries out.
#[derive(Clone, Copy, Debug, PartialEq, Eq, Structural)]
pub enum RebootCmd {
    Restart,
    PowerOff,
    Halt,
}

/// First magic number of `reboot`.
pub const REBOOT_MAGIC1: u64 = 0xfee1_dead;

/// Second magic number of `reboot`.
pub const REBOOT_MAGIC2: u64 = 0x2812_1969;

/// The command a valid `reboot` carries out.
pub open spec fn spec_reboot(magic: u64, magic2: u64, cmd: u64) -> Option<RebootCmd> {
    if magic != REBOOT_MAGIC1 || magic2 != REBOOT_MAGIC2 {
        None
    } else if cmd == REBOOT_CMD_POWER_OFF {
        Some(RebootCmd::PowerOff)
    } else if cmd == REBOOT_CMD_RESTART {
        Some(RebootCmd::Restart)
    } else if cmd == REBOOT_CMD_HALT {
        Some(RebootCmd::Halt)
    } else {
        None
    }
}

/// `reboot(magic, magic2, cmd)`: the command to carry out, or `EINVAL`
/// for wrong magic numbers or an unknown command.  A command that
/// returns also answers `EINVAL`.
pub fn reboot(magic: u64, magic2: u64, cmd: u64) -> (r: Result<RebootCmd, isize>)
    ensures
        match spec_reboot(magic, magic2, cmd) {
            Some(c) => r == Ok::<RebootCmd, isize>(c),
            None => r == Err::<RebootCmd, isize>(spec_errno(ErrorCode::EINVAL) as isize),
        },
{
    if magic != REBOOT_MAGIC1 || magic2 != REBOOT_MAGIC2 {
        return Err(ErrorCode::EINVAL.value());
    }
    if cmd == REBOOT_CMD_POWER_OFF {
        Ok(RebootCmd::PowerOff)
    } else if cmd == REBOOT_CMD_RESTART {
        Ok(RebootCmd::Restart)
    } else if cmd == REBOOT_CMD_HALT {
        Ok(RebootCmd::Halt)
    } else {
        Err(ErrorCode::EINVAL.value())
    }
}

/// Work a system call leaves to the caller: I/O on an open file, a
/// program to execute, a machine reset, or storing `wait4`'s results in
/// user memory before returning.
#[derive(Clone, Copy, Debug)]
pub enum IoRequest {
    Read { file: OpenFile, buf: u64, len: u64 },
    Write { file: OpenFile, buf: u64, len: u64 },
    Execve { path: u64, argv: u64, envp: u64 },
    Reboot { cmd: RebootCmd },
    StoreWait { status: Option<(u64, u32)>, rusage: Option<u64>, tid: u64 },
}

/// The outcome of [`handle`]: finished, or waiting for the caller's I/O.
#[derive(Clone, Copy, Debug)]
pub enum Step {
    Done(SyscallResult),
    Io(IoRequest),
}

/// The step after `wait4` returned `w`: yield when it blocks, return 0
/// when no child has exited, otherwise store the status (at `status` when
/// not null) and the usage (at `rusage` when not null) and return the
/// child's id.
pub open spec fn wait_step(w: Option<crate::task::WaitResult>, status: u64, rusage: u64, next: u64) -> Step {
    match w {
        None => Step::Done(SyscallResult::Yield),
        Some(res) => if res.tid == 0 {
            Step::Done(SyscallResult::Return(0, next))
        } else {
            Step::Io(IoRequest::StoreWait {
                status: if status != 0 { Some((status, spec_exit_status(res.exit_code))) } else { None },
                rusage: if rusage != 0 { Some(rusage) } else { None },
                tid: res.tid as u64,
            })
        },
    }
}

/// `wait4` was asked not to block.
pub open spec fn nohang_arg(tc: [u64; 32]) -> bool {
    (arg(tc, 2) as u32) & WNOHANG != 0
}

/// Argument `i` of the call.
pub open spec fn arg(tc: [u64; 32], i: int) -> u64 {
    tc@[A0_INDEX + i]
}

/// Handles the system call in the trap frame `tc` of task `current`,
/// raised by the `ecall` at `sepc`.
///
/// `exit`, `wait4`, `mmap`, `munmap`, `mremap` and `clone` are carried
/// out here; `read`, `write`, `execve`, a valid `reboot` and the stores of
/// `wait4` are handed back as [`IoRequest`]s.  Unknown calls answer
/// `ENOSYS`.
pub fn handle(
    sepc: u64,
    tc: &[u64; 32],
    current: Option<Tid>,
    tasks: &mut Tasks,
    pt: &mut PageTableManager,
    frames: &mut FrameAllocator,
    ids: &mut TidAllocator,
    ops: &mut Vec<MemOp>,
) -> (r: Step)
    requires
        sepc <= u64::MAX - 4,
        tids_sorted(old(tasks).entries()),
        old(pt).wf(old(frames)),
        old(frames).wf(),
        old(ids).wf(),
        current is Some ==> task_ms_ok(old(tasks).entries(), current->Some_0, old(pt), old(frames)),
        tc@[A0_INDEX + 7] == SYS_EXIT ==> current != Some(Tid(1)),
    ensures
        tids_sorted(final(tasks).entries()),
        final(frames).wf(),
        final(pt).wf(final(frames)),
        final(ids).wf(),
        ({
            let num = tc@[A0_INDEX + 7];
            let unchanged = final(tasks).entries() == old(tasks).entries() && final(ids).used() == old(ids).used();
            num == SYS_READ ==> unchanged
                && r == match spec_read_target(old(tasks).entries(), current, arg(*tc, 0)) {
                    Ok(f) => Step::Io(IoRequest::Read { file: f, buf: arg(*tc, 1), len: arg(*tc, 2) }),
                    Err(e) => Step::Done(SyscallResult::Return(spec_fd_errno(e), (sepc + 4) as u64)),
                }
        }),
        ({
            let num = tc@[A0_INDEX + 7];
            let unchanged = final(tasks).entries() == old(tasks).entries() && final(ids).used() == old(ids).used();
            num == SYS_WRITE ==> unchanged
                && r == match spec_write_target(old(tasks).entries(), current, arg(*tc, 0)) {
                    Ok(f) => Step::Io(IoRequest::Write { file: f, buf: arg(*tc, 1), len: arg(*tc, 2) }),
                    Err(e) => Step::Done(SyscallResult::Return(spec_fd_errno(e), (sepc + 4) as u64)),
                }
        }),
        ({
            let num = tc@[A0_INDEX + 7];
            let unchanged = final(tasks).entries() == old(tasks).entries() && final(ids).used() == old(ids).used();
            num == SYS_EXECVE ==> unchanged
                && r == Step::Io(IoRequest::Execve { path: arg(*tc, 0), argv: arg(*tc, 1), envp: arg(*tc, 2) })
        }),
        tc@[A0_INDEX + 7] == SYS_EXIT ==> final(ids).used() == old(ids).used() && r == Step::Done(SyscallResult::Yield)
            && exit_post(current, arg(*tc, 0) as i32, old(tasks).entries(), final(tasks).entries()),
        tc@[A0_INDEX + 7] == SYS_WAIT4 ==> final(ids).used() == old(ids).used() && exists|w: Option<crate::task::WaitResult>|
            #[trigger] wait4_post(current, arg(*tc, 0) as isize, nohang_arg(*tc),
                old(tasks).entries(), final(tasks).entries(), w)
            && r == wait_step(w, arg(*tc, 1), arg(*tc, 3), (sepc + 4) as u64),
        ({
            let num = tc@[A0_INDEX + 7];
            let unchanged = final(tasks).entries() == old(tasks).entries() && final(ids).used() == old(ids).used();
            num == SYS_REBOOT ==> unchanged && r == match spec_reboot(arg(*tc, 0), arg(*tc, 1), arg(*tc, 2)) {
                Some(c) => Step::Io(IoRequest::Reboot { cmd: c }),
                None => Step::Done(SyscallResult::Return(spec_ret_err(ErrorCode::EINVAL), (sepc + 4) as u64)),
            }
        }),
        (tc@[A0_INDEX + 7] == SYS_MMAP || tc@[A0_INDEX + 7] == SYS_MUNMAP || tc@[A0_INDEX + 7] == SYS_MREMAP)
            ==> final(ids).used() == old(ids).used(),
        (tc@[A0_INDEX + 7] == SYS_MMAP || tc@[A0_INDEX + 7] == SYS_MUNMAP || tc@[A0_INDEX + 7] == SYS_MREMAP) && current is None
            ==> final(tasks).entries() == old(tasks).entries()
                && r == Step::Done(SyscallResult::Return(spec_ret_err(ErrorCode::ESRCH), (sepc + 4) as u64)),
        tc@[A0_INDEX + 7] == SYS_MMAP && current is Some ==> exists|m: Result<u64, ErrorCode>|
            #[trigger] mmap_post(current->Some_0, arg(*tc, 0), arg(*tc, 1), arg(*tc, 2), arg(*tc, 3), arg(*tc, 4) as i64,
                arg(*tc, 5), old(tasks).entries(), final(tasks).entries(), old(frames).used(), m)
            && r == Step::Done(SyscallResult::Return(match m { Ok(v) => v, Err(e) => spec_ret_err(e) }, (sepc + 4) as u64)),
        tc@[A0_INDEX + 7] == SYS_MUNMAP && current is Some ==> exists|m: Result<(), ErrorCode>|
            #[trigger] munmap_post(current->Some_0, arg(*tc, 0), arg(*tc, 1), old(tasks).entries(), final(tasks).entries(),
                old(frames).used(), m)
            && r == Step::Done(SyscallResult::Return(match m { Ok(()) => 0, Err(e) => spec_ret_err(e) }, (sepc + 4) as u64)),
        tc@[A0_INDEX + 7] == SYS_MREMAP && current is Some ==> exists|m: Result<u64, ErrorCode>|
            #[trigger] mremap_post(current->Some_0, arg(*tc, 0), arg(*tc, 1), arg(*tc, 2), arg(*tc, 3), arg(*tc, 4),
                old(tasks).entries(), final(tasks).entries(), old(frames).used(), m)
            && r == Step::Done(SyscallResult::Return(match m { Ok(v) => v, Err(e) => spec_ret_err(e) }, (sepc + 4) as u64)),
        tc@[A0_INDEX + 7] == SYS_CLONE ==> exists|c: Result<Tid, Error>|
            #[trigger] clone_task_post(current, *tc, sepc, old(tasks).entries(), final(tasks).entries(), old(ids).used(),
                final(ids).used(), c)
            && r == Step::Done(SyscallResult::Return(match c {
                Ok(t) => t.0 as u64,
                Err(e) => spec_ret_err(spec_errno_of(e)),
            }, (sepc + 4) as u64)),
        ({
            let num = tc@[A0_INDEX + 7];
            let known = num == SYS_READ || num == SYS_WRITE || num == SYS_EXECVE || num == SYS_EXIT || num == SYS_WAIT4
                || num == SYS_REBOOT || num == SYS_MMAP || num == SYS_MUNMAP || num == SYS_MREMAP || num == SYS_CLONE;
            !known ==> final(tasks).entries() == old(tasks).entries() && final(ids).used() == old(ids).used()
                && r == Step::Done(SyscallResult::Return(spec_ret_err(ErrorCode::ENOSYS), (sepc + 4) as u64))
        }),
        ({
            let num = tc@[A0_INDEX + 7];
            let maps = num == SYS_MMAP || num == SYS_MUNMAP || num == SYS_MREMAP;
            (!maps && num != SYS_CLONE) || (maps && current is None)
                ==> *final(pt) == *old(pt) && *final(frames) == *old(frames)
        }),
        ({
            let num = tc@[A0_INDEX + 7];
            !(num == SYS_MMAP || num == SYS_MUNMAP || num == SYS_MREMAP) || current is None ==> final(ops)@ == old(ops)@
        }),
        final(ops)@.subrange(0, old(ops)@.len() as int) == old(ops)@,
        final(ops)@.len() >= old(ops)@.len(),
        tc@[A0_INDEX + 7] == SYS_MMAP && current is Some && !(mmap_args_ok(arg(*tc, 1), arg(*tc, 2), arg(*tc, 3),
            arg(*tc, 4) as i64, arg(*tc, 5)) && has_tid(old(tasks).entries(), current->Some_0))
            ==> *final(pt) == *old(pt) && *final(frames) == *old(frames),
        tc@[A0_INDEX + 7] == SYS_MUNMAP && current is Some && !(munmap_args_ok(arg(*tc, 0), arg(*tc, 1))
            && has_tid(old(tasks).entries(), current->Some_0))
            ==> *final(pt) == *old(pt) && *final(frames) == *old(frames),
        tc@[A0_INDEX + 7] == SYS_MREMAP && current is Some && !(mremap_args_ok(arg(*tc, 0), arg(*tc, 1), arg(*tc, 2),
            arg(*tc, 3), arg(*tc, 4)) && has_tid(old(tasks).entries(), current->Some_0))
            ==> *final(pt) == *old(pt) && *final(frames) == *old(frames),
{
    let num = tc[A0_INDEX + 7];
    let next = sepc + 4;
    if num == SYS_READ {
        match read_target(tasks, current, tc[A0_INDEX]) {
            Ok(f) => Step::Io(IoRequest::Read { file: f, buf: tc[A0_INDEX + 1], len: tc[A0_INDEX + 2] }),
            Err(e) => Step::Done(SyscallResult::Return(fd_errno(e), next)),
        }
    } else if num == SYS_WRITE {
        match write_target(tasks, current, tc[A0_INDEX]) {
            Ok(f) => Step::Io(IoRequest::Write { file: f, buf: tc[A0_INDEX + 1], len: tc[A0_INDEX + 2] }),
            Err(e) => Step::Done(SyscallResult::Return(fd_errno(e), next)),
        }
    } else if num == SYS_EXECVE {
        Step::Io(IoRequest::Execve { path: tc[A0_INDEX], argv: tc[A0_INDEX + 1], envp: tc[A0_INDEX + 2] })
    } else if num == SYS_EXIT {
        let code = tc[A0_INDEX] as i32;
        exit(tasks, current, code);
        Step::Done(SyscallResult::Yield)
    } else if num == SYS_WAIT4 {
        let pid = tc[A0_INDEX] as isize;
        let status_ptr = tc[A0_INDEX + 1];
        let options = tc[A0_INDEX + 2] as u32;
        let rusage_ptr = tc[A0_INDEX + 3];
        let w = wait4(tasks, current, pid, options & WNOHANG != 0);
        proof {
            assert(wait4_post(current, arg(*tc, 0) as isize, nohang_arg(*tc),
                old(tasks).entries(), tasks.entries(), w));
        }
        match w {
            None => Step::Done(SyscallResult::Yield),
            Some(res) => {
                if res.tid == 0 {
                    Step::Done(SyscallResult::Return(0, next))
                } else {
                    let status = if status_ptr != 0 { Some((status_ptr, exit_status(res.exit_code))) } else { None };
                    let rusage = if rusage_ptr != 0 { Some(rusage_ptr) } else { None };
                    Step::Io(IoRequest::StoreWait { status, rusage, tid: res.tid as u64 })
                }
            },
        }
    } else if num == SYS_REBOOT {
        match reboot(tc[A0_INDEX], tc[A0_INDEX + 1], tc[A0_INDEX + 2]) {
            Ok(cmd) => Step::Io(IoRequest::Reboot { cmd }),
            Err(_) => Step::Done(SyscallResult::Return(ret_err(ErrorCode::EINVAL), next)),
        }
    } else if num == SYS_MMAP || num == SYS_MUNMAP || num == SYS_MREMAP {
        let t = match current {
            Some(t) => t,
            None => return Step::Done(SyscallResult::Return(ret_err(ErrorCode::ESRCH), next)),
        };
        if num == SYS_MMAP {
            let m = mmap(t, tc[A0_INDEX], tc[A0_INDEX + 1], tc[A0_INDEX + 2], tc[A0_INDEX + 3], tc[A0_INDEX + 4] as i64,
                tc[A0_INDEX + 5], tasks, pt, frames, ops);
            proof {
                assert(mmap_post(t, arg(*tc, 0), arg(*tc, 1), arg(*tc, 2), arg(*tc, 3), arg(*tc, 4) as i64, arg(*tc, 5),
                    old(tasks).entries(), tasks.entries(), old(frames).used(), m));
            }
            let v = match m {
                Ok(v) => v,
                Err(e) => ret_err(e),
            };
            Step::Done(SyscallResult::Return(v, next))
        } else if num == SYS_MUNMAP {
            let m = munmap(t, tc[A0_INDEX], tc[A0_INDEX + 1], tasks, pt, frames, ops);
            proof {
                assert(munmap_post(t, arg(*tc, 0), arg(*tc, 1), old(tasks).entries(), tasks.entries(), old(frames).used(), m));
            }
            let v = match m {
                Ok(()) => 0,
                Err(e) => ret_err(e),
            };
            Step::Done(SyscallResult::Return(v, next))
        } else {
            let m = mremap(t, tc[A0_INDEX], tc[A0_INDEX + 1], tc[A0_INDEX + 2], tc[A0_INDEX + 3], tc[A0_INDEX + 4],
                tasks, pt, frames, ops);
            proof {
                assert(mremap_post(t, arg(*tc, 0), arg(*tc, 1), arg(*tc, 2), arg(*tc, 3), arg(*tc, 4),
                    old(tasks).entries(), tasks.entries(), old(frames).used(), m));
            }
            let v = match m {
                Ok(v) => v,
                Err(e) => ret_err(e),
            };
            Step::Done(SyscallResult::Return(v, next))
        }
    } else if num == SYS_CLONE {
        let c = clone_task(tasks, current, tc, sepc, pt, frames, ids);
        proof {
            assert(clone_task_post(current, *tc, sepc, old(tasks).entries(), tasks.entries(), old(ids).used(), ids.used(), c));
        }
        let v = match c {
            Ok(t) => t.0 as u64,
            Err(e) => ret_err(errno_of(&e)),
        };
        Step::Done(SyscallResult::Return(v, next))
    } else {
        Step::Done(SyscallResult::Return(ret_err(ErrorCode::ENOSYS), next))
    }
}

/// Finishes a `read` or `write` with the caller's outcome.
pub fn finish_rw(outcome: Result<u64, FdError>, sepc: u64) -> (r: SyscallResult)
    requires
        sepc <= u64::MAX - 4,
    ensures
        r == SyscallResult::Return(match outcome { Ok(n) => n, Err(e) => spec_fd_errno(e) }, (sepc + 4) as u64),
{
    let v = match outcome {
        Ok(n) => n,
        Err(e) => fd_errno(e),
    };
    SyscallResult::Return(v, sepc + 4)
}

/// Finishes an `execve`: on success the task gives up the CPU and resumes
/// in the new program; otherwise it returns `ENOENT`.
pub fn finish_execve(loaded: bool, sepc: u64) -> (r: SyscallResult)
    requires
        sepc <= u64::MAX - 4,
    ensures
        r == (if loaded { SyscallResult::Yield } else { SyscallResult::Return(spec_ret_err(ErrorCode::ENOENT), (sepc + 4) as u64) }),
{
    if loaded {
        SyscallResult::Yield
    } else {
        SyscallResult::Return(ret_err(ErrorCode::ENOENT), sepc + 4)
    }
}

} // verus!
