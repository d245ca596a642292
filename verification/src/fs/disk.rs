//! A block device held in memory: a byte array addressed by byte offset.
use vstd::prelude::*;

verus! {

/// Errors of a block device.
#[derive(Clone, Copy, Debug, PartialEq, Eq, Structural)]
pub enum IoError {
    /// The request reaches past the end of the device.
    OutOfRange,
}

/// Little-endian `u16` stored at `off`.
pub open spec fn u16_at(d: Seq<u8>, off: int) -> u16 {
    (d[off] as int + d[off + 1] as int * 256) as u16
}

/// Little-endian `u32` stored at `off`.
pub open spec fn u32_at(d: Seq<u8>, off: int) -> u32 {
    (u16_at(d, off) as int + u16_at(d, off + 2) as int * 65536) as u32
}

/// `[off, off + len)` lies within `d`.
pub open spec fn in_range(d: Seq<u8>, off: int, len: int) -> bool {
    0 <= off && 0 <= len && off + len <= d.len()
}

/// `d` with the bytes at `off` replaced by `data`.
pub open spec fn splice(d: Seq<u8>, off: int, data: Seq<u8>) -> Seq<u8> {
    d.subrange(0, off) + data + d.subrange(off + data.len(), d.len() as int)
}

/// The two little-endian bytes of `v`.
pub open spec fn le16(v: u16) -> Seq<u8> {
    seq![(v % 256) as u8, (v / 256) as u8]
}

/// The four little-endian bytes of `v`.
pub open spec fn le32(v: u32) -> Seq<u8> {
    le16((v % 65536) as u16) + le16((v / 65536) as u16)
}

/// A disk image in memory.
pub struct MemDisk {
    bytes: Vec<u8>,
}

impl View for MemDisk {
    type V = Seq<u8>;

    closed spec fn view(&self) -> Seq<u8> {
        self.bytes@
    }
}

impl MemDisk {
    /// A disk holding `bytes`.
    pub fn new(bytes: Vec<u8>) -> (r: Self)
        ensures
            r@ == bytes@,
    {
        MemDisk { bytes }
    }

    /// The size of the disk in bytes.
    pub fn len(&self) -> (r: usize)
        ensures
            r == self@.len(),
    {
        self.bytes.len()
    }

    /// The disk contents.
    pub fn into_bytes(self) -> (r: Vec<u8>)
        ensures
            r@ == self@,
    {
        self.bytes
    }

    /// Whether `[off, off + len)` lies on the disk.
    pub fn fits(&self, off: u64, len: usize) -> (r: bool)
        ensures
            r == in_range(self@, off as int, len as int),
    {
        let n = self.bytes.len();
        (off as u128) + (len as u128) <= (n as u128)
    }

    /// Reads `len` bytes at `off`.
    pub fn read(&self, off: u64, len: usize) -> (r: Result<Vec<u8>, IoError>)
        ensures
            match r {
                Ok(v) => in_range(self@, off as int, len as int)
                    && v@ == self@.subrange(off as int, off + len),
                Err(e) => !in_range(self@, off as int, len as int) && e == IoError::OutOfRange,
            },
    {
        if !self.fits(off, len) {
            return Err(IoError::OutOfRange);
        }
        let n = self.bytes.len();
        assert(off <= n);
        let start = off as usize;
        let mut v: Vec<u8> = Vec::with_capacity(len);
        let mut i: usize = 0;
        while i < len
            invariant
                i <= len,
                start == off,
                n == self@.len(),
                in_range(self@, off as int, len as int),
                v@ == self@.subrange(off as int, off + i),
            decreases len - i,
        {
            v.push(self.bytes[start + i]);
            i = i + 1;
            assert(v@ =~= self@.subrange(off as int, off + i));
        }
        Ok(v)
    }

    /// Writes `data` at `off`.
    pub fn write(&mut self, off: u64, data: &[u8]) -> (r: Result<(), IoError>)
        ensures
            match r {
                Ok(()) => in_range(old(self)@, off as int, data@.len() as int)
                    && final(self)@ == splice(old(self)@, off as int, data@),
                Err(e) => !in_range(old(self)@, off as int, data@.len() as int)
                    && e == IoError::OutOfRange && final(self)@ == old(self)@,
            },
    {
        if !self.fits(off, data.len()) {
            return Err(IoError::OutOfRange);
        }
        let n = self.bytes.len();
        assert(off <= n);
        let start = off as usize;
        let mut i: usize = 0;
        while i < data.len()
            invariant
                i <= data@.len(),
                start == off,
                n == self@.len(),
                in_range(old(self)@, off as int, data@.len() as int),
                self@.len() == old(self)@.len(),
                forall|k: int| 0 <= k < self@.len() ==> #[trigger] self@[k] == if off <= k < off + i {
                    data@[k - off]
                } else {
                    old(self)@[k]
                },
            decreases data@.len() - i,
        {
            self.bytes.set(start + i, data[i]);
            i = i + 1;
        }
        assert(self@ =~= splice(old(self)@, off as int, data@));
        Ok(())
    }

    /// Reads the little-endian `u16` at `off`.
    pub fn read_u16(&self, off: u64) -> (r: Result<u16, IoError>)
        ensures
            match r {
                Ok(v) => in_range(self@, off as int, 2) && v == u16_at(self@, off as int),
                Err(e) => !in_range(self@, off as int, 2) && e == IoError::OutOfRange,
            },
    {
        if !self.fits(off, 2) {
            return Err(IoError::OutOfRange);
        }
        let n = self.bytes.len();
        assert(off + 2 <= n);
        let i = off as usize;
        Ok(self.bytes[i] as u16 + (self.bytes[i + 1] as u16) * 256)
    }

    /// Reads the little-endian `u32` at `off`.
    pub fn read_u32(&self, off: u64) -> (r: Result<u32, IoError>)
        ensures
            match r {
                Ok(v) => in_range(self@, off as int, 4) && v == u32_at(self@, off as int),
                Err(e) => !in_range(self@, off as int, 4) && e == IoError::OutOfRange,
            },
    {
        if !self.fits(off, 4) {
            return Err(IoError::OutOfRange);
        }
        let n = self.bytes.len();
        assert(off + 4 <= n);
        let lo = self.read_u16(off)?;
        let hi = self.read_u16(off + 2)?;
        Ok(lo as u32 + (hi as u32) * 65536)
    }
}

/// The little-endian bytes of `v`.
pub fn u16_bytes(v: u16) -> (r: Vec<u8>)
    ensures
        r@ == le16(v),
{
    let r = vec![(v % 256) as u8, (v / 256) as u8];
    assert(r@ =~= le16(v));
    r
}

/// The little-endian bytes of `v`.
pub fn u32_bytes(v: u32) -> (r: Vec<u8>)
    ensures
        r@ == le32(v),
{
    let lo = (v % 65536) as u16;
    let hi = (v / 65536) as u16;
    let r = vec![(lo % 256) as u8, (lo / 256) as u8, (hi % 256) as u8, (hi / 256) as u8];
    assert(r@ =~= le32(v));
    r
}

/// Decoding what was encoded gives the value back.
pub proof fn lemma_u16_roundtrip(v: u16)
    ensures
        u16_at(le16(v), 0) == v,
{
}

/// Decoding what was encoded gives the value back.
pub proof fn lemma_u32_roundtrip(v: u32)
    ensures
        u32_at(le32(v), 0) == v,
{
    let s = le32(v);
    assert(s.subrange(0, 2) =~= le16((v % 65536) as u16));
    assert(u16_at(s, 0) == (v % 65536) as u16);
    assert(u16_at(s, 2) == (v / 65536) as u16);
}

} // verus!
