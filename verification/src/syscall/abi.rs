//! System call numbers, error codes and user-visible ABI types
//! (Linux asm-generic, riscv64).
use vstd::prelude::*;

verus! {

/// The time value reported by `wait4`.
#[derive(Clone, Copy, Debug, PartialEq, Eq, Structural)]
pub struct TimeVal {
    pub tv_sec: i64,
    pub tv_usec: i64,
}

/// Resource usage reported by `wait4`, laid out as the riscv64 user ABI.
#[derive(Clone, Copy, Debug, PartialEq, Eq, Structural)]
pub struct ResourceUsage {
    pub ru_utime: TimeVal,
    pub ru_stime: TimeVal,
    pub ru_maxrss: i64,
    pub ru_ixrss: i64,
    pub ru_idrss: i64,
    pub ru_isrss: i64,
    pub ru_minflt: i64,
    pub ru_majflt: i64,
    pub ru_nswap: i64,
    pub ru_inblock: i64,
    pub ru_oublock: i64,
    pub ru_msgsnd: i64,
    pub ru_msgrcv: i64,
    pub ru_nsignals: i64,
    pub ru_nvcsw: i64,
    pub ru_nivcsw: i64,
}

impl TimeVal {
    /// Zero seconds.
    pub fn zero() -> (r: Self)
        ensures
            r.tv_sec == 0 && r.tv_usec == 0,
    {
        TimeVal { tv_sec: 0, tv_usec: 0 }
    }
}

impl ResourceUsage {
    /// No resources used.
    pub fn zero() -> (r: Self)
        ensures
            r.ru_utime.tv_sec == 0 && r.ru_utime.tv_usec == 0,
            r.ru_stime.tv_sec == 0 && r.ru_stime.tv_usec == 0,
            r.ru_maxrss == 0 && r.ru_ixrss == 0 && r.ru_idrss == 0 && r.ru_isrss == 0,
            r.ru_minflt == 0 && r.ru_majflt == 0 && r.ru_nswap == 0,
            r.ru_inblock == 0 && r.ru_oublock == 0 && r.ru_msgsnd == 0 && r.ru_msgrcv == 0,
            r.ru_nsignals == 0 && r.ru_nvcsw == 0 && r.ru_nivcsw == 0,
    {
        ResourceUsage {
            ru_utime: TimeVal::zero(),
            ru_stime: TimeVal::zero(),
            ru_maxrss: 0,
            ru_ixrss: 0,
            ru_idrss: 0,
            ru_isrss: 0,
            ru_minflt: 0,
            ru_majflt: 0,
            ru_nswap: 0,
            ru_inblock: 0,
            ru_oublock: 0,
            ru_msgsnd: 0,
            ru_msgrcv: 0,
            ru_nsignals: 0,
            ru_nvcsw: 0,
            ru_nivcsw: 0,
        }
    }
}

/// Linux error codes returned by system calls.
#[derive(Clone, Copy, Debug, PartialEq, Eq, Structural)]
pub enum ErrorCode {
    EPERM,
    ENOENT,
    ESRCH,
    EINTR,
    EIO,
    ENXIO,
    E2BIG,
    ENOEXEC,
    EBADF,
    ECHILD,
    EAGAIN,
    ENOMEM,
    EACCES,
    EFAULT,
    EBUSY,
    EEXIST,
    EXDEV,
    ENODEV,
    ENOTDIR,
    EISDIR,
    EINVAL,
    ENFILE,
    EMFILE,
    ENOTTY,
    EFBIG,
    ENOSPC,
    ESPIPE,
    EROFS,
    EMLINK,
    EPIPE,
    ERANGE,
    ENAMETOOLONG,
    ENOSYS,
    ENOTEMPTY,
    ELOOP,
    EOVERFLOW,
}

/// The (negative) value of an error code as a system call returns it.
pub open spec fn spec_errno(e: ErrorCode) -> int {
    match e {
        ErrorCode::EPERM => -1,
        ErrorCode::ENOENT => -2,
        ErrorCode::ESRCH => -3,
        ErrorCode::EINTR => -4,
        ErrorCode::EIO => -5,
        ErrorCode::ENXIO => -6,
        ErrorCode::E2BIG => -7,
        ErrorCode::ENOEXEC => -8,
        ErrorCode::EBADF => -9,
        ErrorCode::ECHILD => -10,
        ErrorCode::EAGAIN => -11,
        ErrorCode::ENOMEM => -12,
        ErrorCode::EACCES => -13,
        ErrorCode::EFAULT => -14,
        ErrorCode::EBUSY => -16,
        ErrorCode::EEXIST => -17,
        ErrorCode::EXDEV => -18,
        ErrorCode::ENODEV => -19,
        ErrorCode::ENOTDIR => -20,
        ErrorCode::EISDIR => -21,
        ErrorCode::EINVAL => -22,
        ErrorCode::ENFILE => -23,
        ErrorCode::EMFILE => -24,
        ErrorCode::ENOTTY => -25,
        ErrorCode::EFBIG => -27,
        ErrorCode::ENOSPC => -28,
        ErrorCode::ESPIPE => -29,
        ErrorCode::EROFS => -30,
        ErrorCode::EMLINK => -31,
        ErrorCode::EPIPE => -32,
        ErrorCode::ERANGE => -34,
        ErrorCode::ENAMETOOLONG => -36,
        ErrorCode::ENOSYS => -38,
        ErrorCode::ENOTEMPTY => -39,
        ErrorCode::ELOOP => -40,
        ErrorCode::EOVERFLOW => -75,
    }
}

impl ErrorCode {
    /// The negative value returned to user space.
    pub fn value(&self) -> (r: isize)
        ensures
            r == spec_errno(*self),
    {
        match self {
            ErrorCode::EPERM => -1,
            ErrorCode::ENOENT => -2,
            ErrorCode::ESRCH => -3,
            ErrorCode::EINTR => -4,
            ErrorCode::EIO => -5,
            ErrorCode::ENXIO => -6,
            ErrorCode::E2BIG => -7,
            ErrorCode::ENOEXEC => -8,
            ErrorCode::EBADF => -9,
            ErrorCode::ECHILD => -10,
            ErrorCode::EAGAIN => -11,
            ErrorCode::ENOMEM => -12,
            ErrorCode::EACCES => -13,
            ErrorCode::EFAULT => -14,
            ErrorCode::EBUSY => -16,
            ErrorCode::EEXIST => -17,
            ErrorCode::EXDEV => -18,
            ErrorCode::ENODEV => -19,
            ErrorCode::ENOTDIR => -20,
            ErrorCode::EISDIR => -21,
            ErrorCode::EINVAL => -22,
            ErrorCode::ENFILE => -23,
            ErrorCode::EMFILE => -24,
            ErrorCode::ENOTTY => -25,
            ErrorCode::EFBIG => -27,
            ErrorCode::ENOSPC => -28,
            ErrorCode::ESPIPE => -29,
            ErrorCode::EROFS => -30,
            ErrorCode::EMLINK => -31,
            ErrorCode::EPIPE => -32,
            ErrorCode::ERANGE => -34,
            ErrorCode::ENAMETOOLONG => -36,
            ErrorCode::ENOSYS => -38,
            ErrorCode::ENOTEMPTY => -39,
            ErrorCode::ELOOP => -40,
            ErrorCode::EOVERFLOW => -75,
        }
    }
}

/// `mmap` protection bits.
pub const PROT_NONE: u64 = 0;
pub const PROT_READ: u64 = 1;
pub const PROT_WRITE: u64 = 2;
pub const PROT_EXEC: u64 = 4;

/// `mmap` flags.
pub const MAP_SHARED: u64 = 0x01;
pub const MAP_PRIVATE: u64 = 0x02;
pub const MAP_FIXED: u64 = 0x10;
pub const MAP_ANONYMOUS: u64 = 0x20;
pub const MAP_GROWSDOWN: u64 = 0x0100;
pub const MAP_STACK: u64 = 0x02_0000;
pub const MAP_FIXED_NOREPLACE: u64 = 0x10_0000;

/// `mremap` flags.
pub const MREMAP_MAYMOVE: u64 = 1;
pub const MREMAP_FIXED: u64 = 2;
pub const MREMAP_DONTUNMAP: u64 = 4;

/// System call numbers.
pub const SYS_READ: u64 = 63;
pub const SYS_WRITE: u64 = 64;
pub const SYS_EXIT: u64 = 93;
pub const SYS_REBOOT: u64 = 142;
pub const SYS_MUNMAP: u64 = 215;
pub const SYS_MREMAP: u64 = 216;
pub const SYS_CLONE: u64 = 220;
pub const SYS_EXECVE: u64 = 221;
pub const SYS_MMAP: u64 = 222;
pub const SYS_WAIT4: u64 = 260;

/// `reboot` commands.
pub const REBOOT_CMD_RESTART: u64 = 0x1234567;
pub const REBOOT_CMD_POWER_OFF: u64 = 0x4321fedc;
pub const REBOOT_CMD_HALT: u64 = 0xcdef0123;

/// `wait4` option bits.
pub const WNOHANG: u32 = 1;
pub const WUNTRACED: u32 = 2;
pub const WEXITED: u32 = 4;
pub const WCONTINUED: u32 = 8;
pub const WNOWAIT: u32 = 0x100_0000;

/// The wait status of a child that exited normally with `code`: the
/// signal bits are clear and the exit code sits in bits 8..16.
pub open spec fn spec_exit_status(code: i32) -> u32 {
    (((code as int) % 256) * 256) as u32
}

/// Encodes the wait status of a normal exit with `code`.
pub fn exit_status(code: i32) -> (r: u32)
    ensures
        r == spec_exit_status(code),
        r % 256 == 0,
        r < 0x1_0000,
{
    let low: u32 = ((code as i64) % 256 + 256) as u32 % 256;
    proof {
        assert(low == (code as int) % 256);
    }
    low * 256
}

} // verus!
