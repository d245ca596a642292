//! The device file system, usually mounted at `/dev`: a root directory
//! and a fixed set of device nodes (`null`, `zero`, `console`, `vda`).
use vstd::prelude::*;
use vstd::string::{StrSliceExecFns, StringExecFns};
use crate::fs::fs_error::FsError;
use crate::fs::path::{Path, is_absolute_spec, trimmed_len};
use crate::fs::types::{Mode, mode_of, FT_CHR, FT_BLK, FT_DIR};
use crate::fs::vfs::{DirEntry, File, FileOps, OpenFlags, Stat, Whence};

verus! {

/// Number of device nodes.
pub const DEVICE_COUNT: usize = 4;

/// Name of device node `k`.
pub open spec fn dev_name(k: int) -> Seq<char> {
    if k == 0 {
        seq!['n', 'u', 'l', 'l']
    } else if k == 1 {
        seq!['z', 'e', 'r', 'o']
    } else if k == 2 {
        seq!['c', 'o', 'n', 's', 'o', 'l', 'e']
    } else {
        seq!['v', 'd', 'a']
    }
}

/// Inode number of device node `k`.
pub open spec fn dev_ino(k: int) -> u64 {
    (k + 2) as u64
}

/// Mode of device node `k`: character devices readable and writable by
/// all, the block device `vda` by owner and group.
pub open spec fn dev_mode(k: int) -> u16 {
    if k < 3 { mode_of(FT_CHR, 0o666) } else { mode_of(FT_BLK, 0o660) }
}

/// Mode of the root directory.
pub open spec fn root_mode() -> u16 {
    mode_of(FT_DIR, 0o755)
}

/// A device node: name, inode number and mode.
pub struct DeviceNode {
    pub name: &'static str,
    pub ino: u64,
    pub mode: Mode,
}

/// `n` is device node `k`.
pub open spec fn is_device(n: DeviceNode, k: int) -> bool {
    &&& 0 <= k < DEVICE_COUNT
    &&& n.name@ == dev_name(k)
    &&& n.ino == dev_ino(k)
    &&& n.mode.0 == dev_mode(k)
}

/// Device node `k`.
pub fn device(k: usize) -> (n: DeviceNode)
    requires
        k < DEVICE_COUNT,
    ensures
        is_device(n, k as int),
{
    let chr = Mode::new(FT_CHR, 0o666);
    if k == 0 {
        proof {
            reveal_strlit("null");
            assert("null"@ =~= seq!['n', 'u', 'l', 'l']);
        }
        DeviceNode { name: "null", ino: 2, mode: chr }
    } else if k == 1 {
        proof {
            reveal_strlit("zero");
            assert("zero"@ =~= seq!['z', 'e', 'r', 'o']);
        }
        DeviceNode { name: "zero", ino: 3, mode: chr }
    } else if k == 2 {
        proof {
            reveal_strlit("console");
            assert("console"@ =~= seq!['c', 'o', 'n', 's', 'o', 'l', 'e']);
        }
        DeviceNode { name: "console", ino: 4, mode: chr }
    } else {
        proof {
            reveal_strlit("vda");
            assert("vda"@ =~= seq!['v', 'd', 'a']);
        }
        DeviceNode { name: "vda", ino: 5, mode: Mode::new(FT_BLK, 0o660) }
    }
}

/// Number of leading `/` of `s`.
pub open spec fn lead_len(s: Seq<char>) -> int
    decreases s.len(),
{
    if s.len() > 0 && s[0] == '/' { 1 + lead_len(s.subrange(1, s.len() as int)) } else { 0 }
}

/// `s` without its leading and trailing `/`.
pub open spec fn strip_slashes(s: Seq<char>) -> Seq<char> {
    let t = s.subrange(lead_len(s), s.len() as int);
    t.subrange(0, trimmed_len(t))
}

/// The device node named `name`.
pub open spec fn device_named(name: Seq<char>) -> Option<int> {
    if name == dev_name(0) {
        Some(0)
    } else if name == dev_name(1) {
        Some(1)
    } else if name == dev_name(2) {
        Some(2)
    } else if name == dev_name(3) {
        Some(3)
    } else {
        None
    }
}

/// The node lookup of path `p`: an error for a relative path or a name
/// with a `/` inside, else the device node of that name (`None` for the
/// root and for an unknown name alike).
pub open spec fn lookup(p: Seq<char>) -> Result<Option<int>, FsError> {
    if !is_absolute_spec(p) {
        Err(FsError::Invalid)
    } else if strip_slashes(p).len() == 0 {
        Ok(None)
    } else if strip_slashes(p).contains('/') {
        Err(FsError::NotFound)
    } else {
        Ok(device_named(strip_slashes(p)))
    }
}

/// What path `p` names in the device file system: an error, the root
/// directory (`None`) or a device node; an unknown name is `NotFound`.
pub open spec fn dev_target(p: Seq<char>) -> Result<Option<int>, FsError> {
    if lookup(p) == Ok::<Option<int>, FsError>(None) && strip_slashes(p).len() != 0 {
        Err(FsError::NotFound)
    } else {
        lookup(p)
    }
}

proof fn lemma_lead_len(s: Seq<char>)
    ensures
        0 <= lead_len(s) <= s.len(),
    decreases s.len(),
{
    if s.len() > 0 && s[0] == '/' {
        lemma_lead_len(s.subrange(1, s.len() as int));
    }
}

proof fn lemma_trimmed_bound(s: Seq<char>)
    ensures
        0 <= trimmed_len(s) <= s.len(),
    decreases s.len(),
{
    if s.len() > 0 && s.last() == '/' {
        lemma_trimmed_bound(s.drop_last());
    }
}

/// The range of `s` without its leading and trailing `/`.
fn strip_range(s: &str) -> (r: (usize, usize))
    ensures
        r.0 <= r.1 <= s@.len(),
        s@.subrange(r.0 as int, r.1 as int) == strip_slashes(s@),
{
    let n = s.unicode_len();
    let mut lo: usize = 0;
    proof {
        assert(s@.subrange(0, n as int) =~= s@);
    }
    while lo < n && s.get_char(lo) == '/'
        invariant
            lo <= n,
            n == s@.len(),
            lead_len(s@) == lo + lead_len(s@.subrange(lo as int, n as int)),
        decreases n - lo,
    {
        assert(s@.subrange(lo as int, n as int).subrange(1, n - lo) =~= s@.subrange(lo + 1, n as int));
        lo = lo + 1;
    }
    let ghost t = s@.subrange(lo as int, n as int);
    assert(lead_len(t) == 0);
    let mut hi: usize = n;
    assert(t.subrange(0, (hi - lo) as int) =~= t);
    while hi > lo && s.get_char(hi - 1) == '/'
        invariant
            lo <= hi <= n,
            n == s@.len(),
            t == s@.subrange(lo as int, n as int),
            trimmed_len(t) == trimmed_len(t.subrange(0, (hi - lo) as int)),
        decreases hi,
    {
        assert(t.subrange(0, (hi - lo) as int).drop_last() =~= t.subrange(0, (hi - 1 - lo) as int));
        hi = hi - 1;
    }
    assert(trimmed_len(t) == hi - lo);
    assert(t.subrange(0, (hi - lo) as int) =~= s@.subrange(lo as int, hi as int));
    (lo, hi)
}

/// `s[from..to]` holds a `/`.
fn has_slash(s: &str, from: usize, to: usize) -> (r: bool)
    requires
        from <= to <= s@.len(),
    ensures
        r == s@.subrange(from as int, to as int).contains('/'),
{
    let mut i = from;
    while i < to
        invariant
            from <= i <= to <= s@.len(),
            forall|k: int| from <= k < i ==> s@[k] != '/',
        decreases to - i,
    {
        if s.get_char(i) == '/' {
            assert(s@.subrange(from as int, to as int)[i - from] == '/');
            return true;
        }
        i = i + 1;
    }
    assert forall|k: int| 0 <= k < to - from implies s@.subrange(from as int, to as int)[k] != '/' by {
        assert(s@.subrange(from as int, to as int)[k] == s@[from + k]);
    }
    false
}

/// `s[from..to]` equals `t`.
fn range_eq(s: &str, from: usize, to: usize, t: &str) -> (r: bool)
    requires
        from <= to <= s@.len(),
    ensures
        r == (s@.subrange(from as int, to as int) == t@),
{
    let m = t.unicode_len();
    if to - from != m {
        return false;
    }
    let mut i: usize = 0;
    while i < m
        invariant
            i <= m,
            m == t@.len(),
            to - from == m,
            from <= to <= s@.len(),
            forall|k: int| 0 <= k < i ==> s@[from + k] == t@[k],
        decreases m - i,
    {
        if s.get_char(from + i) != t.get_char(i) {
            assert(s@.subrange(from as int, to as int)[i as int] != t@[i as int]);
            return false;
        }
        i = i + 1;
    }
    assert(s@.subrange(from as int, to as int) =~= t@);
    true
}

/// Discards what is written and reads end of file.
pub struct Null;

impl FileOps for Null {
    open spec fn read_at_result(&self, len: nat, offset: u64) -> Result<usize, FsError> {
        Ok(0)
    }

    open spec fn write_at_result(&self, buf: Seq<u8>, offset: u64) -> Result<usize, FsError> {
        Ok(buf.len() as usize)
    }

    open spec fn seek_result(&self, current: u64, offset: i64, whence: Whence) -> Result<i64, FsError> {
        Err(FsError::Unsupported)
    }

    fn read_at(&mut self, buf: &mut Vec<u8>, offset: u64) -> (r: Result<usize, FsError>) {
        self.read(buf)
    }

    fn write_at(&mut self, buf: &[u8], offset: u64) -> (r: Result<usize, FsError>) {
        self.write(buf)
    }

    fn seek(&mut self, current: u64, offset: i64, whence: Whence) -> (r: Result<i64, FsError>) {
        Err(FsError::Unsupported)
    }

    fn write(&mut self, buf: &[u8]) -> (r: Result<usize, FsError>)
        ensures
            r == Ok::<usize, FsError>(buf@.len() as usize),
    {
        Ok(buf.len())
    }

    fn read(&mut self, buf: &mut Vec<u8>) -> (r: Result<usize, FsError>)
        ensures
            r == Ok::<usize, FsError>(0),
            final(buf)@ == old(buf)@,
    {
        Ok(0)
    }
}

/// Reads zero bytes, discards what is written.
pub struct Zero;

impl FileOps for Zero {
    open spec fn read_at_result(&self, len: nat, offset: u64) -> Result<usize, FsError> {
        Ok(len as usize)
    }

    open spec fn write_at_result(&self, buf: Seq<u8>, offset: u64) -> Result<usize, FsError> {
        Ok(buf.len() as usize)
    }

    open spec fn seek_result(&self, current: u64, offset: i64, whence: Whence) -> Result<i64, FsError> {
        Err(FsError::Unsupported)
    }

    fn read_at(&mut self, buf: &mut Vec<u8>, offset: u64) -> (r: Result<usize, FsError>) {
        self.read(buf)
    }

    fn write_at(&mut self, buf: &[u8], offset: u64) -> (r: Result<usize, FsError>) {
        self.write(buf)
    }

    fn seek(&mut self, current: u64, offset: i64, whence: Whence) -> (r: Result<i64, FsError>) {
        Err(FsError::Unsupported)
    }

    fn read(&mut self, buf: &mut Vec<u8>) -> (r: Result<usize, FsError>)
        ensures
            r == Ok::<usize, FsError>(old(buf)@.len() as usize),
            final(buf)@ == Seq::new(old(buf)@.len(), |i: int| 0u8),
    {
        let n = buf.len();
        let mut i: usize = 0;
        while i < n
            invariant
                i <= n,
                n == buf@.len(),
                n == old(buf)@.len(),
                forall|k: int| 0 <= k < i ==> buf@[k] == 0u8,
            decreases n - i,
        {
            buf.set(i, 0);
            i = i + 1;
        }
        assert(buf@ =~= Seq::new(old(buf)@.len(), |i: int| 0u8));
        Ok(n)
    }

    fn write(&mut self, buf: &[u8]) -> (r: Result<usize, FsError>)
        ensures
            r == Ok::<usize, FsError>(buf@.len() as usize),
    {
        Ok(buf.len())
    }
}

/// The root directory of the device file system; lists the device nodes
/// in order.
pub struct DeviceDirectory {
    pub next: usize,
}

impl FileOps for DeviceDirectory {
    open spec fn read_at_result(&self, len: nat, offset: u64) -> Result<usize, FsError> {
        Err(FsError::Unsupported)
    }

    open spec fn write_at_result(&self, buf: Seq<u8>, offset: u64) -> Result<usize, FsError> {
        Err(FsError::Unsupported)
    }

    open spec fn seek_result(&self, current: u64, offset: i64, whence: Whence) -> Result<i64, FsError> {
        Err(FsError::Unsupported)
    }

    fn read_at(&mut self, buf: &mut Vec<u8>, offset: u64) -> (r: Result<usize, FsError>) {
        Err(FsError::Unsupported)
    }

    fn write_at(&mut self, buf: &[u8], offset: u64) -> (r: Result<usize, FsError>) {
        Err(FsError::Unsupported)
    }

    fn seek(&mut self, current: u64, offset: i64, whence: Whence) -> (r: Result<i64, FsError>) {
        Err(FsError::Unsupported)
    }

    fn read_dir(&mut self) -> (r: Result<Option<DirEntry>, FsError>)
        ensures
            final(self).next == (if old(self).next == usize::MAX { 0 } else { old(self).next + 1 }),
            match r {
                Ok(Some(e)) => old(self).next < DEVICE_COUNT && e.ino == dev_ino(old(self).next as int)
                    && e.name@ == dev_name(old(self).next as int)
                    && e.file_type == dev_mode(old(self).next as int) / 4096,
                Ok(None) => old(self).next >= DEVICE_COUNT,
                Err(_) => false,
            },
    {
        let index = self.next;
        self.next = self.next.wrapping_add(1);
        if index >= DEVICE_COUNT {
            return Ok(None);
        }
        let node = device(index);
        Ok(Some(DirEntry { ino: node.ino, name: String::from_str(node.name), file_type: node.mode.file_type() }))
    }
}

/// What opening a path of the device file system gives: the root
/// directory or a device node.
pub enum DevOpen {
    Root(File<DeviceDirectory>),
    Device(DeviceNode, OpenFlags),
}

/// The device file system.
pub struct DevFs;

impl DevFs {
    /// The device file system.
    pub fn new() -> (r: DevFs) {
        DevFs
    }

    /// The device node that `path` names; `None` for the root directory
    /// and for an unknown name.  Fails with `Invalid` on a relative path
    /// and `NotFound` on a name with a `/` inside.
    pub fn node(path: &Path) -> (r: Result<Option<DeviceNode>, FsError>)
        ensures
            match lookup(path@) {
                Err(e) => r matches Err(f) && f == e,
                Ok(None) => r matches Ok(None),
                Ok(Some(k)) => r matches Ok(Some(n)) && is_device(n, k),
            },
    {
        let s = path.as_str();
        let n = s.unicode_len();
        if n == 0 || s.get_char(0) != '/' {
            return Err(FsError::Invalid);
        }
        let (lo, hi) = strip_range(s);
        if lo == hi {
            return Ok(None);
        }
        if has_slash(s, lo, hi) {
            return Err(FsError::NotFound);
        }
        let mut k: usize = 0;
        while k < DEVICE_COUNT
            invariant
                k <= DEVICE_COUNT,
                lo <= hi <= s@.len(),
                s@ == path@,
                s@.subrange(lo as int, hi as int) == strip_slashes(path@),
                is_absolute_spec(path@),
                strip_slashes(path@).len() != 0,
                !strip_slashes(path@).contains('/'),
                forall|j: int| 0 <= j < k ==> strip_slashes(path@) != dev_name(j),
            decreases DEVICE_COUNT - k,
        {
            let node = device(k);
            if range_eq(s, lo, hi, node.name) {
                return Ok(Some(node));
            }
            k = k + 1;
        }
        Ok(None)
    }

    /// The root directory, opened with `flags`.
    pub fn root(flags: OpenFlags) -> (r: File<DeviceDirectory>)
        ensures
            r.dentry.name@ == seq!['/'],
            r.dentry.inode.ino == 1,
            r.dentry.inode.mode.0 == root_mode(),
            r.ops.next == 0,
            r.offset == 0,
            r.flags == flags,
    {
        proof { reveal_strlit("/"); }
        File::from_ops("/", 1, Mode::new(FT_DIR, 0o755), DeviceDirectory { next: 0 }, flags)
    }

    /// Opens `path` with `flags`: the root directory, or the device node
    /// it names.  Fails as [`DevFs::node`] does, with `NotFound` for an
    /// unknown name, and with `NotDir` when `flags` ask for a directory
    /// and the path names a device.
    pub fn open(&self, path: &Path, flags: OpenFlags) -> (r: Result<DevOpen, FsError>)
        ensures
            match dev_target(path@) {
                Err(e) => r matches Err(f) && f == e,
                Ok(None) => r matches Ok(DevOpen::Root(file)) && file.ops.next == 0 && file.flags == flags
                    && file.dentry.inode.ino == 1 && file.dentry.inode.mode.0 == root_mode()
                    && file.dentry.name@ == seq!['/'] && file.offset == 0,
                Ok(Some(k)) => if (flags.0 / 65536) % 2 == 1 {
                    r matches Err(f) && f == FsError::NotDir
                } else {
                    r matches Ok(DevOpen::Device(n, fl)) && is_device(n, k) && fl == flags
                },
            },
    {
        match DevFs::node(path) {
            Err(e) => Err(e),
            Ok(None) => {
                let (lo, hi) = strip_range(path.as_str());
                if lo == hi {
                    Ok(DevOpen::Root(DevFs::root(flags)))
                } else {
                    Err(FsError::NotFound)
                }
            },
            Ok(Some(n)) => {
                if flags.directory() {
                    Err(FsError::NotDir)
                } else {
                    Ok(DevOpen::Device(n, flags))
                }
            },
        }
    }

    /// The metadata of what `path` names: the root directory or a device
    /// node, size 0, one link, owner and group 0.
    pub fn stat(&self, path: &Path) -> (r: Result<Stat, FsError>)
        ensures
            match dev_target(path@) {
                Err(e) => r matches Err(f) && f == e,
                Ok(None) => r matches Ok(st) && st.ino == 1 && st.mode.0 == root_mode() && st.size == 0
                    && st.nlinks == 1 && st.mtime == 0 && st.uid == 0 && st.gid == 0,
                Ok(Some(k)) => r matches Ok(st) && st.ino == dev_ino(k) && st.mode.0 == dev_mode(k) && st.size == 0
                    && st.nlinks == 1 && st.mtime == 0 && st.uid == 0 && st.gid == 0,
            },
    {
        match DevFs::node(path) {
            Err(e) => Err(e),
            Ok(None) => {
                let (lo, hi) = strip_range(path.as_str());
                if lo == hi {
                    Ok(Stat { ino: 1, mode: Mode::new(FT_DIR, 0o755), size: 0, nlinks: 1, mtime: 0, uid: 0, gid: 0 })
                } else {
                    Err(FsError::NotFound)
                }
            },
            Ok(Some(n)) => Ok(Stat { ino: n.ino, mode: n.mode, size: 0, nlinks: 1, mtime: 0, uid: 0, gid: 0 }),
        }
    }

    /// Directories cannot be made here.
    pub fn mkdir(&self, path: &Path) -> (r: Result<(), FsError>)
        ensures
            r == Err::<(), FsError>(FsError::Unsupported),
    {
        Err(FsError::Unsupported)
    }

    /// Nothing can be removed here.
    pub fn unlink(&self, path: &Path) -> (r: Result<(), FsError>)
        ensures
            r == Err::<(), FsError>(FsError::Unsupported),
    {
        Err(FsError::Unsupported)
    }

    /// Nothing can be removed here.
    pub fn rmdir(&self, path: &Path) -> (r: Result<(), FsError>)
        ensures
            r == Err::<(), FsError>(FsError::Unsupported),
    {
        Err(FsError::Unsupported)
    }

    /// Nothing can be renamed here.
    pub fn rename(&self, old: &Path, new: &Path) -> (r: Result<(), FsError>)
        ensures
            r == Err::<(), FsError>(FsError::Unsupported),
    {
        Err(FsError::Unsupported)
    }

    /// No links can be made here.
    pub fn link(&self, old: &Path, new: &Path) -> (r: Result<(), FsError>)
        ensures
            r == Err::<(), FsError>(FsError::Unsupported),
    {
        Err(FsError::Unsupported)
    }

    /// No symbolic links can be made here.
    pub fn symlink(&self, target: &str, linkpath: &Path) -> (r: Result<(), FsError>)
        ensures
            r == Err::<(), FsError>(FsError::Unsupported),
    {
        Err(FsError::Unsupported)
    }

    /// There are no symbolic links here.
    pub fn readlink(&self, path: &Path) -> (r: Result<Path, FsError>)
        ensures
            r matches Err(f) && f == FsError::Unsupported,
    {
        Err(FsError::Unsupported)
    }

    /// Nothing to write back.
    pub fn sync(&self) -> (r: Result<(), FsError>)
        ensures
            r == Ok::<(), FsError>(()),
    {
        Ok(())
    }
}

} // verus!
