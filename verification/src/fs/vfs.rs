//! The layer above the concrete file systems: open flags, metadata, the
//! operations a file provides ([`FileOps`]) and the open file ([`File`]).
use vstd::prelude::*;
use vstd::string::StringExecFns;
use crate::fs::fs_error::FsError;
use crate::fs::types::Mode;

verus! {

/// Access mode `O_RDONLY`.
pub const ACCESS_READ_ONLY: u32 = 0;
/// Access mode `O_WRONLY`.
pub const ACCESS_WRITE_ONLY: u32 = 1;
/// Access mode `O_RDWR`.
pub const ACCESS_READ_WRITE: u32 = 2;

/// Flags of `open`, with the bit layout of the POSIX `O_*` constants: the
/// access mode in bits 1..0, `O_CREAT` (6), `O_EXCL` (7), `O_TRUNC` (9),
/// `O_APPEND` (10), `O_NONBLOCK` (11), `O_DIRECTORY` (16).
#[derive(Clone, Copy, Debug, PartialEq, Eq, Structural)]
pub struct OpenFlags(pub u32);

impl OpenFlags {
    /// The flags with raw value `v`.
    pub fn from_bits(v: u32) -> (r: OpenFlags)
        ensures
            r.0 == v,
    {
        OpenFlags(v)
    }

    /// Read only.
    pub fn read_only() -> (r: OpenFlags)
        ensures
            r.0 == 0,
    {
        OpenFlags(0)
    }

    /// Write only.
    pub fn write_only() -> (r: OpenFlags)
        ensures
            r.0 == 1,
    {
        OpenFlags(1)
    }

    /// Read and write.
    pub fn read_write() -> (r: OpenFlags)
        ensures
            r.0 == 2,
    {
        OpenFlags(2)
    }

    /// The access mode (bits 1..0).
    pub fn accmode(&self) -> (r: u32)
        ensures
            r == self.0 % 4,
    {
        self.0 % 4
    }

    /// Reading is allowed: the access mode is not `O_WRONLY`.
    pub fn can_read(&self) -> (r: bool)
        ensures
            r == (self.0 % 4 != ACCESS_WRITE_ONLY),
    {
        self.accmode() != ACCESS_WRITE_ONLY
    }

    /// Writing is allowed: the access mode is not `O_RDONLY`.
    pub fn can_write(&self) -> (r: bool)
        ensures
            r == (self.0 % 4 != ACCESS_READ_ONLY),
    {
        self.accmode() != ACCESS_READ_ONLY
    }

    /// `O_CREAT`: create the file when it does not exist.
    pub fn create(&self) -> (r: bool)
        ensures
            r == ((self.0 / 64) % 2 == 1),
    {
        (self.0 / 64) % 2 == 1
    }

    /// `O_EXCL`: with `O_CREAT`, fail when the file exists.
    pub fn exclusive(&self) -> (r: bool)
        ensures
            r == ((self.0 / 128) % 2 == 1),
    {
        (self.0 / 128) % 2 == 1
    }

    /// `O_TRUNC`: truncate to length zero on open.
    pub fn truncate(&self) -> (r: bool)
        ensures
            r == ((self.0 / 512) % 2 == 1),
    {
        (self.0 / 512) % 2 == 1
    }

    /// `O_APPEND`: every write goes to the end of the file.
    pub fn append(&self) -> (r: bool)
        ensures
            r == ((self.0 / 1024) % 2 == 1),
    {
        (self.0 / 1024) % 2 == 1
    }

    /// `O_NONBLOCK`.
    pub fn nonblock(&self) -> (r: bool)
        ensures
            r == ((self.0 / 2048) % 2 == 1),
    {
        (self.0 / 2048) % 2 == 1
    }

    /// `O_DIRECTORY`: the target must be a directory.
    pub fn directory(&self) -> (r: bool)
        ensures
            r == ((self.0 / 65536) % 2 == 1),
    {
        (self.0 / 65536) % 2 == 1
    }
}

/// File metadata, the fields of `stat`.
#[derive(Clone, Copy, Debug, PartialEq, Eq, Structural)]
pub struct Stat {
    pub ino: u64,
    pub mode: Mode,
    pub size: u64,
    pub nlinks: u32,
    pub mtime: i64,
    pub uid: u32,
    pub gid: u32,
}

/// A directory entry as `readdir` hands it out.
pub struct DirEntry {
    pub ino: u64,
    pub name: String,
    pub file_type: u16,
}

/// The metadata of a file held in memory.
#[derive(Clone, Copy, Debug, PartialEq, Eq, Structural)]
pub struct Inode {
    pub ino: u64,
    pub mode: Mode,
    pub uid: u32,
    pub gid: u32,
    pub size: u64,
    pub mtime: i64,
    pub nlinks: u32,
}

/// A name in the namespace and the file it names.
pub struct Dentry {
    pub name: String,
    pub inode: Inode,
}

/// Where a seek counts from.
#[derive(Clone, Copy, Debug, PartialEq, Eq, Structural)]
pub enum Whence {
    Start,
    Current,
    End,
}

/// The operations of an open file, provided by a device or a file system.
/// `read`, `write`, `ioctl` and `read_dir` have defaults that fail with
/// [`FsError::Unsupported`].  Each implementation says what its
/// positioned reads and writes and its seeks give, through
/// `read_at_result`, `write_at_result` and `seek_result`.
pub trait FileOps {
    /// What `read_at` gives for a buffer of `len` bytes at `offset`.
    spec fn read_at_result(&self, len: nat, offset: u64) -> Result<usize, FsError>;

    /// What `write_at` gives for the bytes `buf` at `offset`.
    spec fn write_at_result(&self, buf: Seq<u8>, offset: u64) -> Result<usize, FsError>;

    /// What `seek` gives.
    spec fn seek_result(&self, current: u64, offset: i64, whence: Whence) -> Result<i64, FsError>;

    /// Reads into `buf` from the current position; the number of bytes
    /// read.
    fn read(&mut self, buf: &mut Vec<u8>) -> (r: Result<usize, FsError>)
        ensures
            final(buf)@.len() == old(buf)@.len(),
            r matches Ok(n) ==> n <= old(buf)@.len(),
        default_ensures
            r == Err::<usize, FsError>(FsError::Unsupported),
            final(buf)@ == old(buf)@,
    {
        Err(FsError::Unsupported)
    }

    /// Writes `buf` at the current position; the number of bytes written.
    fn write(&mut self, buf: &[u8]) -> (r: Result<usize, FsError>)
        ensures
            r matches Ok(n) ==> n <= buf@.len(),
        default_ensures
            r == Err::<usize, FsError>(FsError::Unsupported),
    {
        Err(FsError::Unsupported)
    }

    /// Reads into `buf` from `offset`.
    fn read_at(&mut self, buf: &mut Vec<u8>, offset: u64) -> (r: Result<usize, FsError>)
        ensures
            final(buf)@.len() == old(buf)@.len(),
            r == old(self).read_at_result(old(buf)@.len(), offset),
            r matches Ok(n) ==> n <= old(buf)@.len(),
    ;

    /// Writes `buf` at `offset`.
    fn write_at(&mut self, buf: &[u8], offset: u64) -> (r: Result<usize, FsError>)
        ensures
            r == old(self).write_at_result(buf@, offset),
            r matches Ok(n) ==> n <= buf@.len(),
    ;

    /// The new position for a seek by `offset` from `whence`, the current
    /// position being `current`.
    fn seek(&mut self, current: u64, offset: i64, whence: Whence) -> (r: Result<i64, FsError>)
        ensures
            r == old(self).seek_result(current, offset, whence),
    ;

    /// A device control request.
    fn ioctl(&mut self, command: u32, arg: u64) -> (r: Result<u64, FsError>)
        default_ensures
            r == Err::<u64, FsError>(FsError::Unsupported),
    {
        Err(FsError::Unsupported)
    }

    /// The next directory entry; `None` once all were handed out.
    fn read_dir(&mut self) -> (r: Result<Option<DirEntry>, FsError>)
        default_ensures
            r matches Err(e) && e == FsError::Unsupported,
    {
        Err(FsError::Unsupported)
    }
}

/// An open file: its operations, its name and metadata, its position and
/// the flags it was opened with.
pub struct File<O: FileOps> {
    pub ops: O,
    pub dentry: Dentry,
    pub offset: u64,
    pub flags: OpenFlags,
}

impl<O: FileOps> File<O> {
    /// An open file named `name` with inode number `ino` and mode `mode`,
    /// served by `ops`: owner and group 0, size 0, one link, position 0.
    pub fn from_ops(name: &str, ino: u64, mode: Mode, ops: O, flags: OpenFlags) -> (r: File<O>)
        ensures
            r.dentry.name@ == name@,
            r.dentry.inode == (Inode { ino, mode, uid: 0, gid: 0, size: 0, mtime: 0, nlinks: 1 }),
            r.ops == ops,
            r.offset == 0,
            r.flags == flags,
    {
        let inode = Inode { ino, mode, uid: 0, gid: 0, size: 0, mtime: 0, nlinks: 1 };
        File { ops, dentry: Dentry { name: String::from_str(name), inode }, offset: 0, flags }
    }

    /// Reads into `buf` from the current position and advances it by the
    /// number of bytes read (wrapping).
    pub fn read(&mut self, buf: &mut Vec<u8>) -> (r: Result<usize, FsError>)
        ensures
            final(buf)@.len() == old(buf)@.len(),
            r == old(self).ops.read_at_result(old(buf)@.len(), old(self).offset),
            final(self).flags == old(self).flags,
            match r {
                Ok(n) => n <= old(buf)@.len() && final(self).offset == (old(self).offset + n) % 0x1_0000_0000_0000_0000,
                Err(_) => final(self).offset == old(self).offset,
            },
    {
        let n = match self.ops.read_at(buf, self.offset) {
            Ok(n) => n,
            Err(e) => return Err(e),
        };
        self.offset = self.offset.wrapping_add(n as u64);
        Ok(n)
    }

    /// Writes `buf` at the current position, or at the end of the file in
    /// append mode, and moves the position to just after the bytes
    /// written (wrapping); a write past the end grows the recorded size,
    /// so appends follow one another.
    pub fn write(&mut self, buf: &[u8]) -> (r: Result<usize, FsError>)
        ensures
            final(self).flags == old(self).flags,
            final(self).dentry.name == old(self).dentry.name,
            r == old(self).ops.write_at_result(buf@,
                if old(self).flags.0 / 1024 % 2 == 1 { old(self).dentry.inode.size } else { old(self).offset }),
            match r {
                Ok(n) => {
                    let at = if old(self).flags.0 / 1024 % 2 == 1 { old(self).dentry.inode.size } else { old(self).offset };
                    let size = old(self).dentry.inode.size;
                    &&& n <= buf@.len()
                    &&& final(self).offset == (at + n) % 0x1_0000_0000_0000_0000
                    &&& final(self).dentry.inode == (Inode {
                        size: if size < at + n <= u64::MAX { (at + n) as u64 } else { size },
                        ..old(self).dentry.inode
                    })
                },
                Err(_) => final(self).offset == old(self).offset && final(self).dentry == old(self).dentry,
            },
    {
        let at = if self.flags.append() { self.dentry.inode.size } else { self.offset };
        let n = match self.ops.write_at(buf, at) {
            Ok(n) => n,
            Err(e) => return Err(e),
        };
        let end = at.wrapping_add(n as u64);
        if at <= u64::MAX - n as u64 && end > self.dentry.inode.size {
            self.dentry.inode.size = end;
        }
        self.offset = end;
        Ok(n)
    }

    /// Reads into `buf` from `offset`; the position stays.
    pub fn read_at(&mut self, buf: &mut Vec<u8>, offset: u64) -> (r: Result<usize, FsError>)
        ensures
            final(buf)@.len() == old(buf)@.len(),
            r == old(self).ops.read_at_result(old(buf)@.len(), offset),
            final(self).offset == old(self).offset,
            final(self).flags == old(self).flags,
            r matches Ok(n) ==> n <= old(buf)@.len(),
    {
        self.ops.read_at(buf, offset)
    }

    /// Writes `buf` at `offset`; the position stays.
    pub fn write_at(&mut self, buf: &[u8], offset: u64) -> (r: Result<usize, FsError>)
        ensures
            r == old(self).ops.write_at_result(buf@, offset),
            final(self).offset == old(self).offset,
            final(self).flags == old(self).flags,
            r matches Ok(n) ==> n <= buf@.len(),
    {
        self.ops.write_at(buf, offset)
    }

    /// Moves the position: the operations compute the new one, which is
    /// taken when it is not negative; returns it.
    pub fn seek(&mut self, offset: i64, whence: Whence) -> (r: Result<i64, FsError>)
        ensures
            r == old(self).ops.seek_result(old(self).offset, offset, whence),
            final(self).flags == old(self).flags,
            match r {
                Ok(n) => final(self).offset == (if n >= 0 { n as u64 } else { old(self).offset }),
                Err(_) => final(self).offset == old(self).offset,
            },
    {
        let current = self.offset;
        let n = match self.ops.seek(current, offset, whence) {
            Ok(n) => n,
            Err(e) => return Err(e),
        };
        if n >= 0 {
            self.offset = n as u64;
        }
        Ok(n)
    }

    /// The file's metadata.
    pub fn stat(&self) -> (r: Result<Stat, FsError>)
        ensures
            r == Ok::<Stat, FsError>(Stat {
                ino: self.dentry.inode.ino,
                mode: self.dentry.inode.mode,
                size: self.dentry.inode.size,
                nlinks: self.dentry.inode.nlinks,
                mtime: self.dentry.inode.mtime,
                uid: self.dentry.inode.uid,
                gid: self.dentry.inode.gid,
            }),
    {
        let i = &self.dentry.inode;
        Ok(Stat { ino: i.ino, mode: i.mode, size: i.size, nlinks: i.nlinks, mtime: i.mtime, uid: i.uid, gid: i.gid })
    }

    /// The next directory entry (directories only).
    pub fn read_dir(&mut self) -> (r: Result<Option<DirEntry>, FsError>)
        ensures
            final(self).offset == old(self).offset,
            final(self).flags == old(self).flags,
    {
        self.ops.read_dir()
    }

    /// The flags the file was opened with.
    pub fn flags(&self) -> (r: OpenFlags)
        ensures
            r == self.flags,
    {
        self.flags
    }

    /// The current position.
    pub fn offset(&self) -> (r: u64)
        ensures
            r == self.offset,
    {
        self.offset
    }

    /// The file's name and metadata.
    pub fn dentry(&self) -> (r: &Dentry)
        ensures
            r == &self.dentry,
    {
        &self.dentry
    }
}

} // verus!
