//! The record file system's index block: 21 file records of 24 bytes
//! (start block, size, a 16-byte name) and the number of the next index
//! block, 512 bytes in all, little-endian.
use vstd::prelude::*;
use crate::fs::disk::{u32_at, le32, u32_bytes};
use crate::exec::{u64_at, le64, read_u32, read_u64, u64_bytes};

verus! {

/// Bytes of a file record.
pub const RECORD_SIZE: usize = 24;
/// File records in an index block.
pub const RECORDS: usize = 21;
/// Bytes of an index block.
pub const INDEX_SIZE: usize = 512;

/// A file name of at most 15 bytes, padded with NUL to 16.
#[derive(Clone, Copy, Debug)]
pub struct RecordString(pub [u8; 16]);

/// Length of the name in `b`: up to its first NUL, all of it when there is
/// none.
pub open spec fn name_len(b: Seq<u8>) -> int
    decreases b.len(),
{
    if b.len() == 0 {
        0
    } else if b[0] == 0 {
        0
    } else {
        1 + name_len(b.subrange(1, b.len() as int))
    }
}

proof fn lemma_name_len(b: Seq<u8>)
    ensures
        0 <= name_len(b) <= b.len(),
        forall|k: int| 0 <= k < name_len(b) ==> b[k] != 0,
        name_len(b) < b.len() ==> b[name_len(b)] == 0,
    decreases b.len(),
{
    if b.len() > 0 && b[0] != 0 {
        let t = b.subrange(1, b.len() as int);
        lemma_name_len(t);
        assert forall|k: int| 0 <= k < name_len(b) implies b[k] != 0 by {
            if k > 0 {
                assert(b[k] == t[k - 1]);
            }
        }
        if name_len(b) < b.len() {
            assert(b[name_len(b)] == t[name_len(t)]);
        }
    }
}

impl RecordString {
    /// The name: the bytes before the first NUL.
    pub fn as_str(&self) -> (r: Vec<u8>)
        ensures
            r@ == self.0@.subrange(0, name_len(self.0@)),
    {
        let mut r: Vec<u8> = Vec::new();
        let mut i: usize = 0;
        proof {
            lemma_name_len(self.0@);
        }
        while i < 16 && self.0[i] != 0
            invariant
                i <= 16,
                self.0@.len() == 16,
                0 <= name_len(self.0@) <= 16,
                forall|k: int| 0 <= k < name_len(self.0@) ==> self.0@[k] != 0,
                name_len(self.0@) < 16 ==> self.0@[name_len(self.0@)] == 0,
                i <= name_len(self.0@),
                r@ == self.0@.subrange(0, i as int),
            decreases 16 - i,
        {
            r.push(self.0[i]);
            i = i + 1;
        }
        r
    }

    /// The record of name `s`, which must be shorter than 16 bytes.
    pub fn from_bytes(s: &[u8]) -> (r: RecordString)
        requires
            s@.len() < 16,
        ensures
            r.0@ == s@ + Seq::new((16 - s@.len()) as nat, |i: int| 0u8),
    {
        let mut buf = [0u8; 16];
        let n = s.len();
        let mut i: usize = 0;
        while i < n
            invariant
                i <= n,
                n == s@.len(),
                n < 16,
                buf@.len() == 16,
                forall|k: int| 0 <= k < i ==> buf@[k] == s@[k],
                forall|k: int| n <= k < 16 ==> buf@[k] == 0u8,
            decreases n - i,
        {
            buf[i] = s[i];
            i = i + 1;
        }
        assert(buf@ =~= s@ + Seq::new((16 - s@.len()) as nat, |i: int| 0u8));
        RecordString(buf)
    }
}

/// A file record: its first block, its size in bytes and its name.
#[derive(Clone, Copy, Debug)]
pub struct File {
    pub start: u32,
    pub size: u32,
    pub file_name: RecordString,
}

impl File {
    /// The record is unused: start block and size are both 0.
    pub fn is_empty(&self) -> (r: bool)
        ensures
            r == (self.start == 0 && self.size == 0),
    {
        self.start == 0 && self.size == 0
    }
}

/// An index block: [`RECORDS`] file records and the next index block.
pub struct Index {
    pub files: Vec<File>,
    pub next_index: u64,
}

/// The record stored at `off` of `d`.
pub open spec fn record_at(d: Seq<u8>, off: int) -> (u32, u32, Seq<u8>) {
    (u32_at(d, off), u32_at(d, off + 4), d.subrange(off + 8, off + 24))
}

/// The 24 bytes of record `f`.
pub open spec fn record_bytes(f: File) -> Seq<u8> {
    le32(f.start) + le32(f.size) + f.file_name.0@
}

/// The bytes of the records `fs`, in order.
pub open spec fn records_bytes(fs: Seq<File>) -> Seq<u8>
    decreases fs.len(),
{
    if fs.len() == 0 { Seq::empty() } else { records_bytes(fs.drop_last()) + record_bytes(fs.last()) }
}

proof fn lemma_records_len(fs: Seq<File>)
    ensures
        records_bytes(fs).len() == 24 * fs.len(),
    decreases fs.len(),
{
    if fs.len() > 0 {
        lemma_records_len(fs.drop_last());
    }
}

impl Index {
    /// The index block stored in `slice`.
    pub fn from_slice(slice: &[u8; 512]) -> (r: Index)
        ensures
            r.files@.len() == RECORDS,
            forall|k: int| 0 <= k < RECORDS ==> {
                let f = #[trigger] r.files@[k];
                (f.start, f.size, f.file_name.0@) == record_at(slice@, 24 * k)
            },
            r.next_index == u64_at(slice@, 504),
    {
        let d: &[u8] = slice;
        let mut files: Vec<File> = Vec::new();
        let mut k: usize = 0;
        while k < RECORDS
            invariant
                k <= RECORDS,
                d@ == slice@,
                d@.len() == 512,
                files@.len() == k,
                forall|j: int| 0 <= j < k ==> {
                    let f = #[trigger] files@[j];
                    (f.start, f.size, f.file_name.0@) == record_at(slice@, 24 * j)
                },
            decreases RECORDS - k,
        {
            let off = 24 * k;
            let start = read_u32(d, off);
            let size = read_u32(d, off + 4);
            let mut name = [0u8; 16];
            let mut i: usize = 0;
            while i < 16
                invariant
                    i <= 16,
                    off == 24 * k,
                    k < RECORDS,
                    d@.len() == 512,
                    name@.len() == 16,
                    forall|j: int| 0 <= j < i ==> name@[j] == d@[off + 8 + j],
                decreases 16 - i,
            {
                name[i] = d[off + 8 + i];
                i = i + 1;
            }
            assert(name@ =~= d@.subrange(off + 8, off + 24));
            files.push(File { start, size, file_name: RecordString(name) });
            k = k + 1;
        }
        let next_index = read_u64(d, 504);
        Index { files, next_index }
    }

    /// The 512 bytes of the index block.
    pub fn as_slice(&self) -> (r: Vec<u8>)
        requires
            self.files@.len() == RECORDS,
        ensures
            r@ == records_bytes(self.files@) + le64(self.next_index),
            r@.len() == INDEX_SIZE,
    {
        let mut r: Vec<u8> = Vec::new();
        let mut k: usize = 0;
        while k < RECORDS
            invariant
                k <= RECORDS,
                self.files@.len() == RECORDS,
                r@ == records_bytes(self.files@.subrange(0, k as int)),
            decreases RECORDS - k,
        {
            let f = self.files[k];
            let mut a = u32_bytes(f.start);
            let mut b = u32_bytes(f.size);
            r.append(&mut a);
            r.append(&mut b);
            let mut i: usize = 0;
            let ghost r0 = r@;
            while i < 16
                invariant
                    i <= 16,
                    r@ == r0 + f.file_name.0@.subrange(0, i as int),
                decreases 16 - i,
            {
                r.push(f.file_name.0[i]);
                i = i + 1;
            }
            proof {
                assert(f.file_name.0@.subrange(0, 16) =~= f.file_name.0@);
                assert(self.files@.subrange(0, k + 1).drop_last() =~= self.files@.subrange(0, k as int));
            }
            k = k + 1;
        }
        let mut t = u64_bytes(self.next_index);
        r.append(&mut t);
        proof {
            assert(self.files@.subrange(0, RECORDS as int) =~= self.files@);
            lemma_records_len(self.files@);
        }
        r
    }
}

} // verus!
