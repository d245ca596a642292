//! The MINIX v1 file system over a [`MemDisk`].
//!
//! Layout (all integers little-endian): the super block at byte 1024, the
//! inode bitmap from zone 2, the zone bitmap after it, then the inode
//! table; inodes are 32 bytes, numbered from 1.  An inode lists seven
//! direct zones, one single-indirect and one double-indirect zone; a zone
//! number 0 ends a list.  Directory entries are an inode number followed
//! by a NUL-padded name of 14 bytes (magic `0x137F`) or 30 bytes (magic
//! `0x138F`).
use vstd::prelude::*;
use vstd::arithmetic::power2::pow2;
use vstd::string::StringSliceAdditionalSpecFns;
use crate::fs::vfs::Whence;
use crate::fs::disk::{MemDisk, IoError, u16_at, u32_at, in_range, splice, le16, le32};

verus! {

/// Byte offset of the super block.
pub const SUPERBLOCK_OFFSET: u64 = 1024;
/// Magic of MINIX v1 with 14-byte names.
pub const MAGIC_V1_14: u16 = 0x137F;
/// Magic of MINIX v1 with 30-byte names.
pub const MAGIC_V1_30: u16 = 0x138F;
/// Size of an on-disk inode in bytes.
pub const INODE_SIZE: u64 = 32;
/// Number of direct zones of an inode.
pub const DIRECT_ZONES: usize = 7;
/// The root directory's inode number.
pub const ROOT_INO: u16 = 1;

/// The super block.
#[derive(Clone, Copy, Debug, PartialEq, Eq, Structural)]
pub struct SuperBlock {
    /// Number of inodes.
    pub ninodes: u16,
    /// Number of zones.
    pub nzones: u16,
    /// Zones taken by the inode bitmap.
    pub imap_blocks: u16,
    /// Zones taken by the zone bitmap.
    pub zmap_blocks: u16,
    /// Zone number of the first data zone.
    pub first_data_zone: u16,
    /// Zone size is `1024 << log_zone_size`.
    pub log_zone_size: u16,
    /// Largest file size.
    pub max_size: u32,
    /// Format magic.
    pub magic: u16,
    /// Mount state.
    pub state: u16,
}

/// The super block stored in `d`.
pub open spec fn superblock_at(d: Seq<u8>) -> SuperBlock {
    let o = SUPERBLOCK_OFFSET as int;
    SuperBlock {
        ninodes: u16_at(d, o),
        nzones: u16_at(d, o + 2),
        imap_blocks: u16_at(d, o + 4),
        zmap_blocks: u16_at(d, o + 6),
        first_data_zone: u16_at(d, o + 8),
        log_zone_size: u16_at(d, o + 10),
        max_size: u32_at(d, o + 12),
        magic: u16_at(d, o + 16),
        state: u16_at(d, o + 18),
    }
}

impl SuperBlock {
    /// Zone size in bytes.
    pub open spec fn spec_zone_size(&self) -> int {
        (1024 * pow2(self.log_zone_size as nat)) as int
    }

    /// Byte offset of the inode table.
    pub open spec fn spec_inode_start(&self) -> int {
        (2 + self.imap_blocks + self.zmap_blocks) * self.spec_zone_size()
    }

    /// Name length of directory entries.
    pub open spec fn spec_name_len(&self) -> int {
        if self.magic == MAGIC_V1_30 { 30 } else { 14 }
    }

    /// Zone size in bytes (`1024 << log_zone_size`).
    pub fn zone_size(&self) -> (r: u64)
        requires
            self.log_zone_size <= 53,
        ensures
            r == self.spec_zone_size(),
            r >= 1024,
            r <= 0x8000_0000_0000_0000,
            r % 2 == 0,
    {
        let l = self.log_zone_size as u64;
        proof {
            vstd::arithmetic::power2::lemma_pow2_pos(l as nat);
            if l < 53 {
                vstd::arithmetic::power2::lemma_pow2_strictly_increases(l as nat, 53);
            }
            vstd::arithmetic::power2::lemma2_to64_rest();
            assert(1024 * pow2(l as nat) <= 0x8000_0000_0000_0000) by (nonlinear_arith)
                requires pow2(l as nat) <= pow2(53), pow2(53) == 0x20000000000000;
            assert(pow2(l as nat) % 2 == 0 || l == 0) by {
                if l > 0 {
                    vstd::arithmetic::power2::lemma_pow2_unfold(l as nat);
                }
            }
            vstd::bits::lemma_u64_shl_is_mul(1024, l);
        }
        1024u64 << l
    }

    /// Byte offset of the inode table (`None` when it does not fit in 64
    /// bits, so no disk holds it).
    pub fn d_inode_start(&self) -> (r: Option<u64>)
        requires
            self.log_zone_size <= 53,
        ensures
            match r {
                Some(v) => v == self.spec_inode_start(),
                None => self.spec_inode_start() > u64::MAX,
            },
    {
        let zs = self.zone_size();
        let n = 2u64 + self.imap_blocks as u64 + self.zmap_blocks as u64;
        n.checked_mul(zs)
    }

    /// Name length of directory entries.
    pub fn name_len(&self) -> (r: u64)
        ensures
            r == self.spec_name_len(),
    {
        if self.magic == MAGIC_V1_30 { 30 } else { 14 }
    }
}

/// The value of an on-disk inode.
pub struct InodeV {
    pub mode: u16,
    pub uid: u16,
    pub size: u32,
    pub mtime: u32,
    pub gid: u8,
    pub nlinks: u8,
    pub zone: Seq<u16>,
}

/// An on-disk inode.
#[derive(Clone, Debug)]
pub struct DINode {
    /// File type and permission bits.
    pub mode: u16,
    /// Owner.
    pub uid: u16,
    /// Size in bytes.
    pub size: u32,
    /// Modification time.
    pub mtime: u32,
    /// Group.
    pub gid: u8,
    /// Number of directory entries referring to the inode.
    pub nlinks: u8,
    /// Seven direct zones, the single- and the double-indirect zone.
    pub zone: Vec<u16>,
}

impl View for DINode {
    type V = InodeV;

    open spec fn view(&self) -> InodeV {
        InodeV {
            mode: self.mode,
            uid: self.uid,
            size: self.size,
            mtime: self.mtime,
            gid: self.gid,
            nlinks: self.nlinks,
            zone: self.zone@,
        }
    }
}

/// Little-endian bytes of a zone list.
pub open spec fn zones_le(z: Seq<u16>) -> Seq<u8> {
    Seq::new(2 * z.len(), |k: int| le16(z[k / 2])[k % 2])
}

/// The 32 bytes that store inode `v`.
pub open spec fn encode_inode(v: InodeV) -> Seq<u8> {
    le16(v.mode) + le16(v.uid) + le32(v.size) + le32(v.mtime) + seq![v.gid, v.nlinks] + zones_le(v.zone)
}

/// The inode stored at byte `off` of `d`.
pub open spec fn decode_inode(d: Seq<u8>, off: int) -> InodeV {
    InodeV {
        mode: u16_at(d, off),
        uid: u16_at(d, off + 2),
        size: u32_at(d, off + 4),
        mtime: u32_at(d, off + 8),
        gid: d[off + 12],
        nlinks: d[off + 13],
        zone: Seq::new(9, |i: int| u16_at(d, off + 14 + 2 * i)),
    }
}

impl DINode {
    /// An unused inode with mode `mode`, one link and no zones.
    pub fn empty(mode: u16, nlinks: u8) -> (r: Self)
        ensures
            r.mode == mode,
            r.nlinks == nlinks,
            r.uid == 0 && r.size == 0 && r.mtime == 0 && r.gid == 0,
            r.zone@ == Seq::new(9, |i: int| 0u16),
    {
        let zone = vec![0u16, 0, 0, 0, 0, 0, 0, 0, 0];
        assert(zone@ =~= Seq::new(9, |i: int| 0u16));
        DINode { mode, uid: 0, size: 0, mtime: 0, gid: 0, nlinks, zone }
    }

    /// The file type bits (`mode >> 12`).
    pub fn file_type(&self) -> (r: u16)
        ensures
            r == self.mode / 4096,
    {
        self.mode / 4096
    }
}

/// File type of a directory.
pub const FT_DIR: u16 = 0o4;
/// File type of a regular file.
pub const FT_REG: u16 = 0o10;
/// File type of a symbolic link.
pub const FT_LNK: u16 = 0o12;

/// Appends the little-endian bytes of `v`.
fn push_u16(b: &mut Vec<u8>, v: u16)
    ensures
        final(b)@ == old(b)@ + le16(v),
{
    b.push((v % 256) as u8);
    b.push((v / 256) as u8);
    assert(b@ =~= old(b)@ + le16(v));
}

/// Appends the little-endian bytes of `v`.
fn push_u32(b: &mut Vec<u8>, v: u32)
    ensures
        final(b)@ == old(b)@ + le32(v),
{
    let ghost b0 = b@;
    push_u16(b, (v % 65536) as u16);
    push_u16(b, (v / 65536) as u16);
    assert(b@ =~= b0 + le32(v));
}

/// The bytes that store `i`.
pub fn inode_bytes(i: &DINode) -> (r: Vec<u8>)
    requires
        i.zone@.len() == 9,
    ensures
        r@ == encode_inode(i@),
        r@.len() == 32,
{
    let mut b: Vec<u8> = Vec::new();
    push_u16(&mut b, i.mode);
    push_u16(&mut b, i.uid);
    push_u32(&mut b, i.size);
    push_u32(&mut b, i.mtime);
    b.push(i.gid);
    b.push(i.nlinks);
    let ghost head = b@;
    assert(head =~= le16(i.mode) + le16(i.uid) + le32(i.size) + le32(i.mtime) + seq![i.gid, i.nlinks]);
    let mut j: usize = 0;
    while j < 9
        invariant
            j <= 9,
            i.zone@.len() == 9,
            b@ == head + zones_le(i.zone@.subrange(0, j as int)),
            head.len() == 14,
        decreases 9 - j,
    {
        let ghost before = b@;
        push_u16(&mut b, i.zone[j]);
        proof {
            let s0 = i.zone@.subrange(0, j as int);
            let s1 = i.zone@.subrange(0, j + 1);
            assert(zones_le(s1) =~= zones_le(s0) + le16(i.zone@[j as int])) by {
                assert forall|k: int| 0 <= k < 2 * s1.len() implies #[trigger] zones_le(s1)[k]
                    == (zones_le(s0) + le16(i.zone@[j as int]))[k] by {
                    if k < 2 * j {
                        assert(s1[k / 2] == s0[k / 2]);
                    } else {
                        assert(k / 2 == j);
                    }
                }
            }
        }
        j = j + 1;
    }
    assert(i.zone@.subrange(0, 9) =~= i.zone@);
    b
}

/// Decoding the bytes of an inode gives the inode back.
pub proof fn lemma_inode_roundtrip(d: Seq<u8>, off: int, v: InodeV)
    requires
        v.zone.len() == 9,
        in_range(d, off, 32),
    ensures
        decode_inode(splice(d, off, encode_inode(v)), off) == v,
{
    let e = encode_inode(v);
    let n = splice(d, off, e);
    assert(e.len() == 32);
    assert forall|k: int| 0 <= k < 32 implies #[trigger] n[off + k] == e[k] by {}
    let a = le16(v.mode) + le16(v.uid) + le32(v.size) + le32(v.mtime) + seq![v.gid, v.nlinks];
    assert(a.len() == 14);
    assert(u16_at(n, off) == v.mode) by {
        assert(n[off] == e[0] && n[off + 1] == e[1]);
    }
    assert(u16_at(n, off + 2) == v.uid) by {
        assert(n[off + 2] == e[2] && n[off + 3] == e[3]);
    }
    assert(u32_at(n, off + 4) == v.size) by {
        assert(n[off + 4] == e[4] && n[off + 5] == e[5] && n[off + 6] == e[6] && n[off + 7] == e[7]);
        crate::fs::disk::lemma_u32_roundtrip(v.size);
        assert(e.subrange(4, 8) =~= le32(v.size));
    }
    assert(u32_at(n, off + 8) == v.mtime) by {
        assert(n[off + 8] == e[8] && n[off + 9] == e[9] && n[off + 10] == e[10] && n[off + 11] == e[11]);
        crate::fs::disk::lemma_u32_roundtrip(v.mtime);
        assert(e.subrange(8, 12) =~= le32(v.mtime));
    }
    assert(n[off + 12] == v.gid && n[off + 13] == v.nlinks) by {
        assert(n[off + 12] == e[12] && n[off + 13] == e[13]);
    }
    let zs = Seq::new(9, |i: int| u16_at(n, off + 14 + 2 * i));
    assert(zs =~= v.zone) by {
        assert forall|i: int| 0 <= i < 9 implies #[trigger] zs[i] == v.zone[i] by {
            assert(n[off + 14 + 2 * i] == e[14 + 2 * i]);
            assert(n[off + 14 + 2 * i + 1] == e[14 + 2 * i + 1]);
            assert(e[14 + 2 * i] == zones_le(v.zone)[2 * i]);
            assert(e[14 + 2 * i + 1] == zones_le(v.zone)[2 * i + 1]);
            assert((2 * i) / 2 == i && (2 * i) % 2 == 0);
            assert((2 * i + 1) / 2 == i && (2 * i + 1) % 2 == 1);
        }
    }
}

/// The `n` little-endian `u16` values stored from byte `off` of `d`.
pub open spec fn table_at(d: Seq<u8>, off: int, n: int) -> Seq<u16> {
    Seq::new(n as nat, |i: int| u16_at(d, off + 2 * i))
}

/// `n` is the index of the first zero in `s` (or its length).
pub open spec fn is_nz_len(s: Seq<u16>, n: int) -> bool {
    &&& 0 <= n <= s.len()
    &&& forall|i: int| 0 <= i < n ==> #[trigger] s[i] != 0
    &&& (n == s.len() || s[n] == 0)
}

/// Index of the first zero in `s` (or its length).
pub open spec fn nz_len(s: Seq<u16>) -> int {
    choose|n: int| is_nz_len(s, n)
}

/// The values of `s` before its first zero.
pub open spec fn nz_prefix(s: Seq<u16>) -> Seq<u16> {
    s.subrange(0, nz_len(s))
}

proof fn lemma_nz_len(s: Seq<u16>, n: int)
    requires
        is_nz_len(s, n),
    ensures
        nz_len(s) == n,
{
    let m = nz_len(s);
    assert(is_nz_len(s, m));
    if m < n {
        assert(s[m] != 0);
    } else if n < m {
        assert(s[n] != 0);
    }
}

/// A MINIX v1 file system together with the disk that holds it.
pub struct MinixFs {
    superblock: SuperBlock,
    disk: MemDisk,
}

impl MinixFs {
    /// The disk contents.
    pub closed spec fn disk(&self) -> Seq<u8> {
        self.disk@
    }

    /// The super block read when the file system was opened.
    pub closed spec fn sb(&self) -> SuperBlock {
        self.superblock
    }

    /// The super block read when the file system was opened.
    pub fn superblock(&self) -> (r: SuperBlock)
        ensures
            r == self.sb(),
    {
        self.superblock
    }

    /// The zone size can be represented.
    pub open spec fn wf(&self) -> bool {
        self.sb().log_zone_size <= 53
    }

    /// Zone size in bytes.
    pub open spec fn zs(&self) -> int {
        self.sb().spec_zone_size()
    }

    /// Byte offset of inode `ino`.
    pub open spec fn inode_off(&self, ino: u16) -> int {
        self.sb().spec_inode_start() + (ino - 1) * INODE_SIZE
    }

    /// The inode `ino` as stored on disk.
    pub open spec fn inode(&self, ino: u16) -> InodeV {
        decode_inode(self.disk(), self.inode_off(ino))
    }

    /// Inode `ino` lies on the disk.
    pub open spec fn inode_ok(&self, ino: u16) -> bool {
        in_range(self.disk(), self.inode_off(ino), INODE_SIZE as int)
    }

    /// Zone `zone` lies on the disk.
    pub open spec fn zone_ok(&self, zone: u16) -> bool {
        in_range(self.disk(), zone * self.zs(), self.zs())
    }

    /// The `u16` table held by zone `zone`.
    pub open spec fn table(&self, zone: u16) -> Seq<u16> {
        table_at(self.disk(), zone * self.zs(), self.zs() / 2)
    }

    /// The zone list held by zone `zone` (empty for zone 0).
    pub open spec fn ztab(&self, zone: u16) -> Seq<u16> {
        if zone == 0 { Seq::empty() } else { nz_prefix(self.table(zone)) }
    }

    /// The zone list held by zone `zone` can be read.
    pub open spec fn ztab_ok(&self, zone: u16) -> bool {
        zone == 0 || self.zone_ok(zone)
    }

    /// The zones listed by the single-indirect tables `t`, in order.
    pub open spec fn dbl(&self, t: Seq<u16>) -> Seq<u16>
        decreases t.len(),
    {
        if t.len() == 0 { Seq::empty() } else { self.dbl(t.drop_last()) + self.ztab(t.last()) }
    }

    /// The direct zones of an inode before the first zero.
    pub open spec fn direct(z: Seq<u16>) -> Seq<u16> {
        nz_prefix(z.subrange(0, 7))
    }

    /// The data zones of an inode with zone array `z`: direct zones up to
    /// the first zero; when all seven are used, then the single-indirect
    /// list and the lists of the double-indirect table.
    pub open spec fn data_zones_of(&self, z: Seq<u16>) -> Seq<u16> {
        let d = Self::direct(z);
        if d.len() < 7 { d } else { d + self.ztab(z[7]) + self.dbl(self.ztab(z[8])) }
    }

    /// Every table needed to list the data zones of `z` can be read.
    pub open spec fn data_zones_ok(&self, z: Seq<u16>) -> bool {
        Self::direct(z).len() < 7 || (self.ztab_ok(z[7]) && self.ztab_ok(z[8])
            && forall|i: int| 0 <= i < self.ztab(z[8]).len() ==> #[trigger] self.ztab_ok(self.ztab(z[8])[i]))
    }

    /// Opens the MINIX v1 file system on `disk`: `Ok(None)` when the magic
    /// is not a MINIX v1 magic or the zone size exceeds 64-bit offsets;
    /// an error when the disk is too small to hold a super block.
    pub fn from_disk(disk: MemDisk) -> (r: Result<Option<MinixFs>, IoError>)
        ensures
            match r {
                Ok(Some(fs)) => fs.wf() && fs.disk() == disk@ && fs.sb() == superblock_at(disk@)
                    && (fs.sb().magic == MAGIC_V1_14 || fs.sb().magic == MAGIC_V1_30),
                Ok(None) => in_range(disk@, SUPERBLOCK_OFFSET as int, 20) && {
                    let sb = superblock_at(disk@);
                    (sb.magic != MAGIC_V1_14 && sb.magic != MAGIC_V1_30) || sb.log_zone_size > 53
                },
                Err(e) => e == IoError::OutOfRange && !in_range(disk@, SUPERBLOCK_OFFSET as int, 20),
            },
    {
        if !disk.fits(SUPERBLOCK_OFFSET, 20) {
            return Err(IoError::OutOfRange);
        }
        let o = SUPERBLOCK_OFFSET;
        let sb = SuperBlock {
            ninodes: disk.read_u16(o)?,
            nzones: disk.read_u16(o + 2)?,
            imap_blocks: disk.read_u16(o + 4)?,
            zmap_blocks: disk.read_u16(o + 6)?,
            first_data_zone: disk.read_u16(o + 8)?,
            log_zone_size: disk.read_u16(o + 10)?,
            max_size: disk.read_u32(o + 12)?,
            magic: disk.read_u16(o + 16)?,
            state: disk.read_u16(o + 18)?,
        };
        if (sb.magic != MAGIC_V1_14 && sb.magic != MAGIC_V1_30) || sb.log_zone_size > 53 {
            return Ok(None);
        }
        Ok(Some(MinixFs { superblock: sb, disk }))
    }

    /// The disk, for writing back.
    pub fn into_disk(self) -> (r: MemDisk)
        ensures
            r@ == self.disk(),
    {
        self.disk
    }

    /// Zone size in bytes.
    pub fn zone_size(&self) -> (r: u64)
        requires
            self.wf(),
        ensures
            r == self.zs(),
            r >= 1024,
            r <= 0x8000_0000_0000_0000,
            r % 2 == 0,
    {
        self.superblock.zone_size()
    }

    /// Byte offset `zone * zone_size + within` (an error when it exceeds
    /// 64 bits, so that no disk holds it).
    fn zone_offset(&self, zone: u16, within: u64) -> (r: Result<u64, IoError>)
        requires
            self.wf(),
        ensures
            match r {
                Ok(o) => o == zone * self.zs() + within,
                Err(e) => e == IoError::OutOfRange && zone * self.zs() + within > u64::MAX,
            },
    {
        let zs = self.zone_size();
        match (zone as u64).checked_mul(zs) {
            Some(base) => match base.checked_add(within) {
                Some(o) => Ok(o),
                None => Err(IoError::OutOfRange),
            },
            None => {
                proof {
                    assert(zone * self.zs() + within >= zone * self.zs());
                }
                Err(IoError::OutOfRange)
            },
        }
    }

    /// Byte offset of inode `ino`.
    fn inode_offset(&self, ino: u16) -> (r: Result<u64, IoError>)
        requires
            self.wf(),
            ino >= 1,
        ensures
            match r {
                Ok(o) => o == self.inode_off(ino),
                Err(e) => e == IoError::OutOfRange && self.inode_off(ino) > u64::MAX,
            },
    {
        let start = match self.superblock.d_inode_start() {
            Some(s) => s,
            None => return Err(IoError::OutOfRange),
        };
        let rel = (ino as u64 - 1) * INODE_SIZE;
        match start.checked_add(rel) {
            Some(o) => Ok(o),
            None => Err(IoError::OutOfRange),
        }
    }

    /// Reads inode `ino` from the inode table.
    pub fn read_inode(&self, ino: u16) -> (r: Result<DINode, IoError>)
        requires
            self.wf(),
            ino >= 1,
        ensures
            match r {
                Ok(i) => self.inode_ok(ino) && i@ == self.inode(ino) && i.zone@.len() == 9,
                Err(e) => e == IoError::OutOfRange && !self.inode_ok(ino),
            },
    {
        let n = self.disk.len();
        let off = self.inode_offset(ino)?;
        if !self.disk.fits(off, 32) {
            return Err(IoError::OutOfRange);
        }
        let mut zone: Vec<u16> = Vec::new();
        let mut k: u64 = 0;
        while k < 9
            invariant
                k <= 9,
                n == self.disk@.len(),
                in_range(self.disk@, off as int, 32),
                zone@ == Seq::new(k as nat, |i: int| u16_at(self.disk@, off + 14 + 2 * i)),
            decreases 9 - k,
        {
            let z = self.disk.read_u16(off + 14 + 2 * k)?;
            zone.push(z);
            k = k + 1;
            assert(zone@ =~= Seq::new(k as nat, |i: int| u16_at(self.disk@, off + 14 + 2 * i)));
        }
        let i = DINode {
            mode: self.disk.read_u16(off)?,
            uid: self.disk.read_u16(off + 2)?,
            size: self.disk.read_u32(off + 4)?,
            mtime: self.disk.read_u32(off + 8)?,
            gid: self.disk.read(off + 12, 1)?[0],
            nlinks: self.disk.read(off + 13, 1)?[0],
            zone,
        };
        Ok(i)
    }

    /// The on-disk inode `ino` (same as [`Self::read_inode`]).
    pub fn d_inode(&self, ino: u16) -> (r: Result<DINode, IoError>)
        requires
            self.wf(),
            ino >= 1,
        ensures
            match r {
                Ok(i) => self.inode_ok(ino) && i@ == self.inode(ino) && i.zone@.len() == 9,
                Err(e) => e == IoError::OutOfRange && !self.inode_ok(ino),
            },
    {
        self.read_inode(ino)
    }

    /// Writes inode `ino` to the inode table.
    pub fn write_inode(&mut self, ino: u16, inode: &DINode) -> (r: Result<(), IoError>)
        requires
            old(self).wf(),
            ino >= 1,
            inode.zone@.len() == 9,
        ensures
            final(self).sb() == old(self).sb(),
            match r {
                Ok(()) => old(self).inode_ok(ino)
                    && final(self).disk() == splice(old(self).disk(), old(self).inode_off(ino), encode_inode(inode@)),
                Err(e) => e == IoError::OutOfRange && !old(self).inode_ok(ino) && final(self).disk() == old(self).disk(),
            },
    {
        let n = self.disk.len();
        let off = self.inode_offset(ino)?;
        let b = inode_bytes(inode);
        self.disk.write(off, b.as_slice())
    }

    /// Reads the whole `u16` table held by zone `zone`.
    pub fn read_zone_table(&self, zone: u16) -> (r: Result<Vec<u16>, IoError>)
        requires
            self.wf(),
        ensures
            match r {
                Ok(t) => self.zone_ok(zone) && t@ == self.table(zone),
                Err(e) => e == IoError::OutOfRange && !self.zone_ok(zone),
            },
    {
        let len = self.disk.len();
        let zs = self.zone_size();
        let off = self.zone_offset(zone, 0)?;
        if zs > len as u64 || !self.disk.fits(off, zs as usize) {
            return Err(IoError::OutOfRange);
        }
        let n = zs / 2;
        let mut t: Vec<u16> = Vec::new();
        let mut i: u64 = 0;
        while i < n
            invariant
                i <= n,
                n == zs / 2,
                zs == self.zs(),
                off == zone * self.zs(),
                len == self.disk@.len(),
                in_range(self.disk@, off as int, zs as int),
                t@ == table_at(self.disk@, off as int, i as int),
            decreases n - i,
        {
            let v = self.disk.read_u16(off + 2 * i)?;
            t.push(v);
            i = i + 1;
            assert(t@ =~= table_at(self.disk@, off as int, i as int));
        }
        Ok(t)
    }

    /// The zone list held by zone `zone`: its values before the first
    /// zero (empty for zone 0).
    pub fn zone_table(&self, zone: u16) -> (r: Result<Vec<u16>, IoError>)
        requires
            self.wf(),
        ensures
            match r {
                Ok(t) => self.ztab_ok(zone) && t@ == self.ztab(zone),
                Err(e) => e == IoError::OutOfRange && !self.ztab_ok(zone),
            },
    {
        if zone == 0 {
            return Ok(Vec::new());
        }
        let full = self.read_zone_table(zone)?;
        let mut t: Vec<u16> = Vec::new();
        let mut i: usize = 0;
        while i < full.len() && full[i] != 0
            invariant
                i <= full@.len(),
                t@ == full@.subrange(0, i as int),
                forall|k: int| 0 <= k < i ==> #[trigger] full@[k] != 0,
            decreases full@.len() - i,
        {
            t.push(full[i]);
            i = i + 1;
            assert(t@ =~= full@.subrange(0, i as int));
        }
        proof {
            lemma_nz_len(full@, i as int);
        }
        Ok(t)
    }

    /// Writes `table` into zone `zone`.
    #[verifier::spinoff_prover]
    #[verifier::rlimit(60)]
    pub fn write_zone_table(&mut self, zone: u16, table: &Vec<u16>) -> (r: Result<(), IoError>)
        requires
            old(self).wf(),
            table@.len() == old(self).zs() / 2,
        ensures
            final(self).sb() == old(self).sb(),
            match r {
                Ok(()) => old(self).zone_ok(zone)
                    && final(self).disk() == splice(old(self).disk(), zone * old(self).zs(), zones_le(table@)),
                Err(e) => e == IoError::OutOfRange && !old(self).zone_ok(zone) && final(self).disk() == old(self).disk(),
            },
    {
        let len = self.disk.len();
        let off = self.zone_offset(zone, 0)?;
        let mut b: Vec<u8> = Vec::new();
        let mut j: usize = 0;
        while j < table.len()
            invariant
                j <= table@.len(),
                b@ == zones_le(table@.subrange(0, j as int)),
            decreases table@.len() - j,
        {
            let ghost before = b@;
            push_u16(&mut b, table[j]);
            proof {
                let s0 = table@.subrange(0, j as int);
                let s1 = table@.subrange(0, j + 1);
                assert(zones_le(s1) =~= zones_le(s0) + le16(table@[j as int])) by {
                    assert forall|k: int| 0 <= k < 2 * s1.len() implies #[trigger] zones_le(s1)[k]
                        == (zones_le(s0) + le16(table@[j as int]))[k] by {
                        if k < 2 * j {
                            assert(s1[k / 2] == s0[k / 2]);
                        } else {
                            assert(k / 2 == j);
                        }
                    }
                }
            }
            j = j + 1;
        }
        assert(table@.subrange(0, table@.len() as int) =~= table@);
        self.disk.write(off, b.as_slice())
    }

    /// Writes `data` at the start of zone `zone`.
    pub fn write_zone(&mut self, zone: u16, data: &[u8]) -> (r: Result<(), IoError>)
        requires
            old(self).wf(),
            data@.len() <= old(self).zs(),
        ensures
            final(self).sb() == old(self).sb(),
            match r {
                Ok(()) => in_range(old(self).disk(), zone * old(self).zs(), data@.len() as int)
                    && final(self).disk() == splice(old(self).disk(), zone * old(self).zs(), data@),
                Err(e) => e == IoError::OutOfRange && !in_range(old(self).disk(), zone * old(self).zs(), data@.len() as int)
                    && final(self).disk() == old(self).disk(),
            },
    {
        let len = self.disk.len();
        let off = self.zone_offset(zone, 0)?;
        self.disk.write(off, data)
    }

    /// Reads zone `zone` whole.
    pub fn read_zone(&self, zone: u16) -> (r: Result<Vec<u8>, IoError>)
        requires
            self.wf(),
        ensures
            match r {
                Ok(b) => self.zone_ok(zone) && b@ == self.disk().subrange(zone * self.zs(), zone * self.zs() + self.zs()),
                Err(e) => e == IoError::OutOfRange && !self.zone_ok(zone),
            },
    {
        let len = self.disk.len();
        let zs = self.zone_size();
        let off = self.zone_offset(zone, 0)?;
        if zs > len as u64 {
            return Err(IoError::OutOfRange);
        }
        self.disk.read(off, zs as usize)
    }
}

impl MinixFs {
    /// The bytes of the zones `z`, one whole zone after another.
    pub open spec fn blocks(&self, z: Seq<u16>) -> Seq<u8>
        decreases z.len(),
    {
        if z.len() == 0 {
            Seq::empty()
        } else {
            self.blocks(z.drop_last()) + self.disk().subrange(z.last() * self.zs(), z.last() * self.zs() + self.zs())
        }
    }

    /// Every zone of `z` lies on the disk.
    pub open spec fn zones_ok(&self, z: Seq<u16>) -> bool {
        forall|i: int| 0 <= i < z.len() ==> #[trigger] self.zone_ok(z[i])
    }

    /// The contents of a file with zone array `z` and size `size`.
    pub open spec fn content(&self, z: Seq<u16>, size: u32) -> Seq<u8> {
        let b = self.blocks(self.data_zones_of(z));
        if size < b.len() { b.subrange(0, size as int) } else { b }
    }

    /// The contents can be read.
    pub open spec fn content_ok(&self, z: Seq<u16>, size: u32) -> bool {
        size == 0 || (self.data_zones_ok(z) && self.zones_ok(self.data_zones_of(z)))
    }

    /// The data zones of `inode`, in file order: the direct zones up to
    /// the first zero, then (when all seven are used) the zones of the
    /// single-indirect table and of each table of the double-indirect
    /// table.
    pub fn data_zones(&self, inode: &DINode) -> (r: Result<Vec<u16>, IoError>)
        requires
            self.wf(),
            inode.zone@.len() == 9,
        ensures
            match r {
                Ok(z) => self.data_zones_ok(inode.zone@) && z@ == self.data_zones_of(inode.zone@),
                Err(e) => e == IoError::OutOfRange && !self.data_zones_ok(inode.zone@),
            },
    {
        let ghost zsq = inode.zone@;
        let mut zones: Vec<u16> = Vec::new();
        let mut i: usize = 0;
        while i < DIRECT_ZONES
            invariant
                i <= 7,
                inode.zone@.len() == 9,
                zsq == inode.zone@,
                zones@ == zsq.subrange(0, i as int),
                forall|k: int| 0 <= k < i ==> #[trigger] zsq[k] != 0,
            decreases 7 - i,
        {
            if inode.zone[i] == 0 {
                proof {
                    lemma_nz_len(zsq.subrange(0, 7), i as int);
                    assert(zones@ =~= Self::direct(zsq));
                }
                return Ok(zones);
            }
            zones.push(inode.zone[i]);
            i = i + 1;
            assert(zones@ =~= zsq.subrange(0, i as int));
        }
        proof {
            lemma_nz_len(zsq.subrange(0, 7), 7);
            assert(zones@ =~= Self::direct(zsq));
        }
        let mut single = self.zone_table(inode.zone[7])?;
        zones.append(&mut single);
        let dbl = self.zone_table(inode.zone[8])?;
        let ghost head = zones@;
        let mut j: usize = 0;
        while j < dbl.len()
            invariant
                j <= dbl@.len(),
                self.wf(),
                zsq.len() == 9,
                zsq == inode.zone@,
                Self::direct(zsq).len() == 7,
                self.ztab_ok(zsq[7]) && self.ztab_ok(zsq[8]),
                dbl@ == self.ztab(zsq[8]),
                zones@ == head + self.dbl(dbl@.subrange(0, j as int)),
                forall|k: int| 0 <= k < j ==> #[trigger] self.ztab_ok(dbl@[k]),
            decreases dbl@.len() - j,
        {
            let mut t = match self.zone_table(dbl[j]) {
                Ok(t) => t,
                Err(e) => {
                    assert(!self.ztab_ok(self.ztab(zsq[8])[j as int]));
                    return Err(e);
                },
            };
            proof {
                let s1 = dbl@.subrange(0, j + 1);
                assert(s1.drop_last() =~= dbl@.subrange(0, j as int));
            }
            zones.append(&mut t);
            j = j + 1;
            assert(zones@ =~= head + self.dbl(dbl@.subrange(0, j as int)));
        }
        assert(dbl@.subrange(0, dbl@.len() as int) =~= dbl@);
        Ok(zones)
    }

    /// The contents of the file with inode `inode`: its data zones read
    /// whole, one after another, cut at the file size.
    pub fn data(&self, inode: &DINode) -> (r: Result<Vec<u8>, IoError>)
        requires
            self.wf(),
            inode.zone@.len() == 9,
        ensures
            match r {
                Ok(b) => self.content_ok(inode.zone@, inode.size) && (inode.size == 0 ==> b@.len() == 0)
                    && (inode.size != 0 ==> b@ == self.content(inode.zone@, inode.size)),
                Err(e) => e == IoError::OutOfRange && !self.content_ok(inode.zone@, inode.size),
            },
    {
        if inode.size == 0 {
            return Ok(Vec::new());
        }
        let zones = self.data_zones(inode)?;
        let mut out: Vec<u8> = Vec::new();
        let mut i: usize = 0;
        while i < zones.len()
            invariant
                i <= zones@.len(),
                self.wf(),
                inode.size != 0,
                self.data_zones_ok(inode.zone@),
                zones@ == self.data_zones_of(inode.zone@),
                out@ == self.blocks(zones@.subrange(0, i as int)),
                forall|k: int| 0 <= k < i ==> #[trigger] self.zone_ok(zones@[k]),
            decreases zones@.len() - i,
        {
            let mut b = match self.read_zone(zones[i]) {
                Ok(b) => b,
                Err(e) => {
                    assert(!self.zones_ok(zones@));
                    return Err(e);
                },
            };
            proof {
                let s1 = zones@.subrange(0, i + 1);
                assert(s1.drop_last() =~= zones@.subrange(0, i as int));
            }
            out.append(&mut b);
            i = i + 1;
        }
        assert(zones@.subrange(0, zones@.len() as int) =~= zones@);
        if (inode.size as u64) < (out.len() as u64) {
            out.truncate(inode.size as usize);
        }
        Ok(out)
    }
}

/// Bit `k` of byte `b`.
pub open spec fn bit_of(b: u8, k: u64) -> bool {
    (b >> k) & 1u8 == 1u8
}

/// Byte `b` with bit `k` set to `v`.
pub open spec fn with_bit_of(b: u8, k: u64, v: bool) -> u8 {
    if v { b | (1u8 << k) } else { b & !(1u8 << k) }
}

proof fn lemma_with_bit_of(b: u8, k: u64, v: bool, j: u64)
    requires
        k < 8,
        j < 8,
    ensures
        bit_of(with_bit_of(b, k, v), j) == if j == k { v } else { bit_of(b, j) },
{
    if v {
        assert(((b | (1u8 << k)) >> j) & 1u8 == 1u8 <==> (j == k || (b >> j) & 1u8 == 1u8)) by (bit_vector)
            requires k < 8u64, j < 8u64;
    } else {
        assert(((b & !(1u8 << k)) >> j) & 1u8 == 1u8 <==> (j != k && (b >> j) & 1u8 == 1u8)) by (bit_vector)
            requires k < 8u64, j < 8u64;
    }
}

/// Clearing bit `i` of the bitmap at `off` after setting it gives the
/// bitmap back when the bit was clear: freeing an inode or zone number
/// right after allocating it leaves the disk as it was.
pub proof fn lemma_free_undoes_alloc(d: Seq<u8>, off: int, i: int)
    requires
        0 <= off,
        0 <= i,
        off + i / 8 < d.len(),
        !map_bit(d, off, i),
    ensures
        with_bit(with_bit(d, off, i, true), off, i, false) == d,
{
    let p = off + i / 8;
    let b = d[p];
    let k = (i % 8) as u64;
    assert((b >> k) & 1u8 != 1u8 ==> (b | (1u8 << k)) & !(1u8 << k) == b) by (bit_vector)
        requires k < 8u64;
    let d1 = with_bit(d, off, i, true);
    assert(d1[p] == with_bit_of(b, k, true));
    assert(with_bit(d1, off, i, false) =~= d);
}

/// Bit `i` of the bitmap stored from byte `off` of `d`.
pub open spec fn map_bit(d: Seq<u8>, off: int, i: int) -> bool {
    bit_of(d[off + i / 8], (i % 8) as u64)
}

/// `d` with bit `i` of the bitmap at `off` set to `v`.
pub open spec fn with_bit(d: Seq<u8>, off: int, i: int, v: bool) -> Seq<u8> {
    d.update(off + i / 8, with_bit_of(d[off + i / 8], (i % 8) as u64, v))
}

proof fn lemma_with_bit(d: Seq<u8>, off: int, i: int, v: bool, j: int)
    requires
        0 <= i,
        0 <= j,
        0 <= off,
        off + i / 8 < d.len(),
        off + j / 8 < d.len(),
    ensures
        map_bit(with_bit(d, off, i, v), off, j) == if j == i { v } else { map_bit(d, off, j) },
        with_bit(d, off, i, v).len() == d.len(),
{
    if i / 8 == j / 8 {
        lemma_with_bit_of(d[off + i / 8], (i % 8) as u64, v, (j % 8) as u64);
        if j != i {
            assert(j % 8 != i % 8);
        }
    }
}

/// A usable bit of a bitmap lies in one of its bytes.
proof fn lemma_bitmap_byte(i: int, bytes: int, bits: int)
    requires
        0 <= i < map_cap(bytes, bits),
    ensures
        i / 8 < bytes,
{
    assert(i / 8 < (bytes / 8) * 8) by (nonlinear_arith)
        requires i < (bytes / 8) * 64, 0 <= i;
    assert((bytes / 8) * 8 <= bytes) by (nonlinear_arith) requires (bytes / 8) * 64 > 0;
}

/// The number of usable bits of a bitmap of `bytes` bytes sized for
/// `bits` bits.
pub open spec fn map_cap(bytes: int, bits: int) -> int {
    if bits < (bytes / 8) * 64 { bits } else { (bytes / 8) * 64 }
}

impl MinixFs {
    /// Bit `i` of the bitmap at `off`.
    pub open spec fn bit(&self, off: int, i: int) -> bool {
        map_bit(self.disk(), off, i)
    }

    /// Reads the bitmap at `off`, sets its first clear bit in
    /// `[1, cap)` and writes the bitmap back.
    fn bitmap_alloc(&mut self, off: u64, bytes: u64, bits: u64) -> (r: Result<Option<u64>, IoError>)
        requires
            old(self).wf(),
        ensures
            final(self).sb() == old(self).sb(),
            match r {
                Ok(Some(i)) => in_range(old(self).disk(), off as int, bytes as int)
                    && 1 <= i < map_cap(bytes as int, bits as int)
                    && !old(self).bit(off as int, i as int)
                    && (forall|j: int| 1 <= j < i ==> #[trigger] old(self).bit(off as int, j))
                    && final(self).disk() == with_bit(old(self).disk(), off as int, i as int, true),
                Ok(None) => in_range(old(self).disk(), off as int, bytes as int)
                    && (forall|j: int| 1 <= j < map_cap(bytes as int, bits as int) ==> #[trigger] old(self).bit(off as int, j))
                    && final(self).disk() == old(self).disk(),
                Err(e) => e == IoError::OutOfRange && !in_range(old(self).disk(), off as int, bytes as int)
                    && final(self).disk() == old(self).disk(),
            },
    {
        let len = self.disk.len();
        if bytes > len as u64 || !self.disk.fits(off, bytes as usize) {
            return Err(IoError::OutOfRange);
        }
        let map = self.disk.read(off, bytes as usize)?;
        let words = bytes / 8;
        let cap = if words >= 0x400_0000_0000_0000 || bits < words * 64 { bits } else { words * 64 };
        let mut i: u64 = 1;
        while i < cap
            invariant
                1 <= i,
                self.wf(),
                self.sb() == old(self).sb(),
                self.disk() == old(self).disk(),
                len == self.disk().len(),
                bytes <= len,
                cap == map_cap(bytes as int, bits as int),
                cap <= bytes * 8,
                map@ == self.disk().subrange(off as int, off + bytes),
                in_range(self.disk(), off as int, bytes as int),
                forall|j: int| 1 <= j < i ==> #[trigger] old(self).bit(off as int, j),
            decreases cap - i,
        {
            assert(i / 8 < bytes);
            let byte = map[(i / 8) as usize];
            let k = i % 8;
            if (byte >> k) & 1 == 0 {
                let nb = if true { byte | (1u8 << k) } else { byte };
                let mut m2 = map;
                m2.set((i / 8) as usize, nb);
                proof {
                    assert(splice(self.disk(), off as int, m2@) =~= with_bit(self.disk(), off as int, i as int, true));
                }
                self.disk.write(off, m2.as_slice())?;
                return Ok(Some(i));
            }
            proof {
                assert(byte == self.disk()[off + i / 8]);
                assert((byte >> k) & 1u8 != 0u8 ==> (byte >> k) & 1u8 == 1u8) by (bit_vector);
                assert(old(self).bit(off as int, i as int));
            }
            i = i + 1;
        }
        Ok(None)
    }

    /// Reads the bitmap at `off`, clears bit `i` when it is below the
    /// capacity, and writes the bitmap back.
    fn bitmap_clear(&mut self, off: u64, bytes: u64, bits: u64, i: u64) -> (r: Result<(), IoError>)
        requires
            old(self).wf(),
        ensures
            final(self).sb() == old(self).sb(),
            match r {
                Ok(()) => in_range(old(self).disk(), off as int, bytes as int) && final(self).disk() == if i < map_cap(
                    bytes as int,
                    bits as int,
                ) {
                    with_bit(old(self).disk(), off as int, i as int, false)
                } else {
                    old(self).disk()
                },
                Err(e) => e == IoError::OutOfRange && !in_range(old(self).disk(), off as int, bytes as int)
                    && final(self).disk() == old(self).disk(),
            },
    {
        let len = self.disk.len();
        if bytes > len as u64 || !self.disk.fits(off, bytes as usize) {
            return Err(IoError::OutOfRange);
        }
        let mut map = self.disk.read(off, bytes as usize)?;
        let words = bytes / 8;
        let cap = if words >= 0x400_0000_0000_0000 || bits < words * 64 { bits } else { words * 64 };
        if i < cap {
            assert(i / 8 < bytes);
            let byte = map[(i / 8) as usize];
            let k = i % 8;
            map.set((i / 8) as usize, byte & !(1u8 << k));
            proof {
                assert(splice(self.disk(), off as int, map@) =~= with_bit(self.disk(), off as int, i as int, false));
            }
        } else {
            proof {
                assert(splice(self.disk(), off as int, map@) =~= self.disk());
            }
        }
        self.disk.write(off, map.as_slice())
    }
}

impl MinixFs {
    /// Byte offset of the inode bitmap.
    pub open spec fn imap_off(&self) -> int {
        2 * self.zs()
    }

    /// Size of the inode bitmap in bytes.
    pub open spec fn imap_bytes(&self) -> int {
        self.sb().imap_blocks * self.zs()
    }

    /// Usable bits of the inode bitmap.
    pub open spec fn imap_cap(&self) -> int {
        map_cap(self.imap_bytes(), self.sb().ninodes + 1)
    }

    /// Byte offset of the zone bitmap.
    pub open spec fn zmap_off(&self) -> int {
        (2 + self.sb().imap_blocks) * self.zs()
    }

    /// Size of the zone bitmap in bytes.
    pub open spec fn zmap_bytes(&self) -> int {
        self.sb().zmap_blocks * self.zs()
    }

    /// Usable bits of the zone bitmap.
    pub open spec fn zmap_cap(&self) -> int {
        map_cap(self.zmap_bytes(), self.sb().nzones - self.sb().first_data_zone + 1)
    }

    /// Inode `ino` is marked in use.
    pub open spec fn inode_used(&self, ino: int) -> bool {
        self.bit(self.imap_off(), ino)
    }

    /// Zone `z` is marked in use (bit `z - first_data_zone + 1`).
    pub open spec fn zone_used(&self, z: int) -> bool {
        self.bit(self.zmap_off(), z - self.sb().first_data_zone + 1)
    }

    /// Offset and size of the inode bitmap (`None` when beyond 64 bits).
    fn imap_region(&self) -> (r: Option<(u64, u64)>)
        requires
            self.wf(),
        ensures
            match r {
                Some((o, b)) => o == self.imap_off() && b == self.imap_bytes(),
                None => self.imap_off() > u64::MAX || self.imap_bytes() > u64::MAX,
            },
    {
        let zs = self.zone_size();
        let o = match zs.checked_mul(2) {
            Some(o) => o,
            None => return None,
        };
        match (self.superblock.imap_blocks as u64).checked_mul(zs) {
            Some(b) => Some((o, b)),
            None => None,
        }
    }

    /// Offset and size of the zone bitmap (`None` when beyond 64 bits).
    fn zmap_region(&self) -> (r: Option<(u64, u64)>)
        requires
            self.wf(),
        ensures
            match r {
                Some((o, b)) => o == self.zmap_off() && b == self.zmap_bytes(),
                None => self.zmap_off() > u64::MAX || self.zmap_bytes() > u64::MAX,
            },
    {
        let zs = self.zone_size();
        let o = match (2 + self.superblock.imap_blocks as u64).checked_mul(zs) {
            Some(o) => o,
            None => return None,
        };
        match (self.superblock.zmap_blocks as u64).checked_mul(zs) {
            Some(b) => Some((o, b)),
            None => None,
        }
    }

    /// Marks the first free inode (lowest number from 1) in use and
    /// returns its number; `None` when every inode is in use.
    pub fn alloc_inode(&mut self) -> (r: Result<Option<u16>, IoError>)
        requires
            old(self).wf(),
        ensures
            final(self).sb() == old(self).sb(),
            match r {
                Ok(Some(ino)) => in_range(old(self).disk(), old(self).imap_off(), old(self).imap_bytes())
                    && 1 <= ino < old(self).imap_cap()
                    && !old(self).inode_used(ino as int)
                    && (forall|j: int| 1 <= j < ino ==> #[trigger] old(self).inode_used(j))
                    && final(self).disk() == with_bit(old(self).disk(), old(self).imap_off(), ino as int, true),
                Ok(None) => in_range(old(self).disk(), old(self).imap_off(), old(self).imap_bytes())
                    && (forall|j: int| 1 <= j < old(self).imap_cap() ==> #[trigger] old(self).inode_used(j))
                    && final(self).disk() == old(self).disk(),
                Err(e) => e == IoError::OutOfRange
                    && !in_range(old(self).disk(), old(self).imap_off(), old(self).imap_bytes())
                    && final(self).disk() == old(self).disk(),
            },
    {
        let len = self.disk.len();
        let (off, bytes) = match self.imap_region() {
            Some(x) => x,
            None => return Err(IoError::OutOfRange),
        };
        let bits = self.superblock.ninodes as u64 + 1;
        match self.bitmap_alloc(off, bytes, bits)? {
            Some(i) => Ok(Some(i as u16)),
            None => Ok(None),
        }
    }

    /// Marks inode `ino` free (nothing happens for 0 or numbers beyond
    /// the inode count).
    pub fn free_inode(&mut self, ino: u16) -> (r: Result<(), IoError>)
        requires
            old(self).wf(),
        ensures
            final(self).sb() == old(self).sb(),
            (ino == 0 || ino > old(self).sb().ninodes) ==> r is Ok && final(self).disk() == old(self).disk(),
            (1 <= ino <= old(self).sb().ninodes) ==> match r {
                Ok(()) => in_range(old(self).disk(), old(self).imap_off(), old(self).imap_bytes())
                    && final(self).disk() == if ino < old(self).imap_cap() {
                        with_bit(old(self).disk(), old(self).imap_off(), ino as int, false)
                    } else {
                        old(self).disk()
                    },
                Err(e) => e == IoError::OutOfRange
                    && !in_range(old(self).disk(), old(self).imap_off(), old(self).imap_bytes())
                    && final(self).disk() == old(self).disk(),
            },
    {
        if ino == 0 || ino > self.superblock.ninodes {
            return Ok(());
        }
        let len = self.disk.len();
        let (off, bytes) = match self.imap_region() {
            Some(x) => x,
            None => return Err(IoError::OutOfRange),
        };
        let bits = self.superblock.ninodes as u64 + 1;
        self.bitmap_clear(off, bytes, bits, ino as u64)
    }

    /// Marks the first free data zone in use and returns its zone number
    /// (bit `b` of the zone bitmap stands for zone `b + first_data_zone
    /// - 1`); `None` when every zone is in use.
    pub fn alloc_zone(&mut self) -> (r: Result<Option<u16>, IoError>)
        requires
            old(self).wf(),
            old(self).sb().first_data_zone <= old(self).sb().nzones,
        ensures
            final(self).sb() == old(self).sb(),
            match r {
                Ok(Some(z)) => in_range(old(self).disk(), old(self).zmap_off(), old(self).zmap_bytes())
                    && old(self).sb().first_data_zone <= z < old(self).sb().nzones
                    && z - old(self).sb().first_data_zone + 1 < old(self).zmap_cap()
                    && !old(self).zone_used(z as int)
                    && (forall|y: int| old(self).sb().first_data_zone <= y < z ==> #[trigger] old(self).zone_used(y))
                    && final(self).disk() == with_bit(old(self).disk(), old(self).zmap_off(),
                        z - old(self).sb().first_data_zone + 1, true),
                Ok(None) => in_range(old(self).disk(), old(self).zmap_off(), old(self).zmap_bytes())
                    && (forall|y: int| old(self).sb().first_data_zone <= y
                        && y - old(self).sb().first_data_zone + 1 < old(self).zmap_cap() ==> #[trigger] old(self).zone_used(y))
                    && final(self).disk() == old(self).disk(),
                Err(e) => e == IoError::OutOfRange
                    && !in_range(old(self).disk(), old(self).zmap_off(), old(self).zmap_bytes())
                    && final(self).disk() == old(self).disk(),
            },
    {
        let len = self.disk.len();
        let (off, bytes) = match self.zmap_region() {
            Some(x) => x,
            None => return Err(IoError::OutOfRange),
        };
        let first = self.superblock.first_data_zone as u64;
        let bits = self.superblock.nzones as u64 - first + 1;
        let ghost f = first as int;
        match self.bitmap_alloc(off, bytes, bits)? {
            Some(b) => {
                proof {
                    assert forall|y: int| f <= y < b + f - 1 implies #[trigger] old(self).zone_used(y) by {
                        assert(old(self).bit(off as int, y - f + 1));
                    }
                }
                Ok(Some((b + first - 1) as u16))
            },
            None => {
                proof {
                    assert forall|y: int| f <= y && y - f + 1 < old(self).zmap_cap() implies #[trigger] old(self).zone_used(y) by {
                        assert(old(self).bit(off as int, y - f + 1));
                    }
                }
                Ok(None)
            },
        }
    }

    /// Marks zone `zone` free (nothing happens for zones outside
    /// `[first_data_zone, nzones)`).
    pub fn free_zone(&mut self, zone: u16) -> (r: Result<(), IoError>)
        requires
            old(self).wf(),
        ensures
            final(self).sb() == old(self).sb(),
            (zone < old(self).sb().first_data_zone || zone >= old(self).sb().nzones) ==> r is Ok
                && final(self).disk() == old(self).disk(),
            (old(self).sb().first_data_zone <= zone < old(self).sb().nzones) ==> match r {
                Ok(()) => in_range(old(self).disk(), old(self).zmap_off(), old(self).zmap_bytes())
                    && final(self).disk() == if zone - old(self).sb().first_data_zone + 1 < old(self).zmap_cap() {
                        with_bit(old(self).disk(), old(self).zmap_off(), zone - old(self).sb().first_data_zone + 1, false)
                    } else {
                        old(self).disk()
                    },
                Err(e) => e == IoError::OutOfRange
                    && !in_range(old(self).disk(), old(self).zmap_off(), old(self).zmap_bytes())
                    && final(self).disk() == old(self).disk(),
            },
    {
        let first = self.superblock.first_data_zone;
        if zone < first || zone >= self.superblock.nzones {
            return Ok(());
        }
        let len = self.disk.len();
        let (off, bytes) = match self.zmap_region() {
            Some(x) => x,
            None => return Err(IoError::OutOfRange),
        };
        let bits = self.superblock.nzones as u64 - first as u64 + 1;
        self.bitmap_clear(off, bytes, bits, (zone - first) as u64 + 1)
    }
}

/// `n` is the index of the first NUL in `s` (or its length).
pub open spec fn is_nul_len(s: Seq<u8>, n: int) -> bool {
    &&& 0 <= n <= s.len()
    &&& forall|i: int| 0 <= i < n ==> #[trigger] s[i] != 0
    &&& (n == s.len() || s[n] == 0)
}

/// The bytes of `s` before its first NUL.
pub open spec fn nul_prefix(s: Seq<u8>) -> Seq<u8>
    decreases s.len(),
{
    if s.len() == 0 || s[0] == 0 { Seq::empty() } else { seq![s[0]] + nul_prefix(s.drop_first()) }
}

proof fn lemma_nul_prefix(s: Seq<u8>, n: int)
    requires
        is_nul_len(s, n),
    ensures
        nul_prefix(s) =~= s.subrange(0, n),
    decreases s.len(),
{
    if s.len() == 0 || s[0] == 0 {
    } else {
        let t = s.drop_first();
        assert(is_nul_len(t, n - 1)) by {
            assert forall|i: int| 0 <= i < n - 1 implies #[trigger] t[i] != 0 by {
                assert(t[i] == s[i + 1]);
            }
        }
        lemma_nul_prefix(t, n - 1);
        assert(s.subrange(0, n) =~= seq![s[0]] + t.subrange(0, n - 1));
    }
}

proof fn lemma_slot_fits(zs: int, es: int, si: int)
    requires
        es > 0,
        0 <= si < zs / es,
    ensures
        si * es + es <= zs,
        0 <= si * es,
{
    assert(si * es + es <= (zs / es) * es) by (nonlinear_arith)
        requires si + 1 <= zs / es, es > 0;
    assert((zs / es) * es <= zs) by (nonlinear_arith)
        requires es > 0;
    assert(0 <= si * es) by (nonlinear_arith)
        requires si >= 0, es > 0;
}

impl MinixFs {
    /// Size of a directory entry: inode number plus name.
    pub open spec fn es(&self) -> int {
        2 + self.sb().spec_name_len()
    }

    /// Directory entries per zone.
    pub open spec fn spz(&self) -> int {
        self.zs() / self.es()
    }

    /// Byte offset of entry slot `si` of zone `zone`.
    pub open spec fn slot_off(&self, zone: u16, si: int) -> int {
        zone * self.zs() + si * self.es()
    }

    /// Inode number stored in the entry slot at `o`.
    pub open spec fn slot_ino(&self, o: int) -> u16 {
        u16_at(self.disk(), o)
    }

    /// Name stored in the entry slot at `o`.
    pub open spec fn slot_name(&self, o: int) -> Seq<u8> {
        nul_prefix(self.disk().subrange(o + 2, o + self.es()))
    }

    /// The entry slot at `o` is in use and named `name`.
    pub open spec fn slot_is(&self, o: int, name: Seq<u8>) -> bool {
        self.slot_ino(o) != 0 && self.slot_name(o) == name
    }

    /// Slot `(zi, si)` of `zones` is the first, in zone then slot order,
    /// that is in use and named `name`.
    pub open spec fn first_match(&self, zones: Seq<u16>, name: Seq<u8>, zi: int, si: int) -> bool {
        &&& 0 <= zi < zones.len()
        &&& 0 <= si < self.spz()
        &&& self.slot_is(self.slot_off(zones[zi], si), name)
        &&& forall|zj: int, sj: int| 0 <= zj < zones.len() && 0 <= sj < self.spz() && (zj < zi || (zj == zi && sj < si))
            ==> !#[trigger] self.slot_is(self.slot_off(zones[zj], sj), name)
    }

    /// The first slot named `name` is one slot.
    proof fn lemma_first_match_unique(&self, zones: Seq<u16>, name: Seq<u8>, zi: int, si: int, zj: int, sj: int)
        requires
            self.first_match(zones, name, zi, si),
            self.first_match(zones, name, zj, sj),
        ensures
            zi == zj && si == sj,
    {
        if zi < zj || (zi == zj && si < sj) {
            assert(self.slot_is(self.slot_off(zones[zi], si), name));
        } else if zj < zi || (zi == zj && sj < si) {
            assert(self.slot_is(self.slot_off(zones[zj], sj), name));
        }
    }

    /// No slot of `zones` is in use and named `name`.
    pub open spec fn no_match(&self, zones: Seq<u16>, name: Seq<u8>) -> bool {
        forall|zj: int, sj: int| 0 <= zj < zones.len() && 0 <= sj < self.spz()
            ==> !#[trigger] self.slot_is(self.slot_off(zones[zj], sj), name)
    }

    /// Size of a directory entry.
    pub fn entry_size(&self) -> (r: u64)
        ensures
            r == self.es(),
            r == 16 || r == 32,
    {
        self.superblock.name_len() + 2
    }

    /// Whether the entry slot at `o` holds the name `name`.
    fn slot_name_is(&self, o: u64, name: &[u8]) -> (r: Result<bool, IoError>)
        requires
            self.wf(),
            in_range(self.disk(), o as int, self.es()),
        ensures
            r == Ok::<bool, IoError>(self.slot_name(o as int) == name@),
    {
        let len = self.disk.len();
        let es = self.entry_size();
        let raw = self.disk.read(o + 2, (es - 2) as usize)?;
        let ghost sub = self.disk().subrange(o + 2, o + self.es());
        assert(raw@ =~= sub);
        let mut n: usize = 0;
        while n < raw.len() && raw[n] != 0
            invariant
                n <= raw@.len(),
                forall|j: int| 0 <= j < n ==> #[trigger] raw@[j] != 0,
            decreases raw@.len() - n,
        {
            n = n + 1;
        }
        proof {
            assert(is_nul_len(sub, n as int));
            lemma_nul_prefix(sub, n as int);
        }
        if n != name.len() {
            return Ok(false);
        }
        let mut k: usize = 0;
        while k < n
            invariant
                k <= n == name@.len() <= raw@.len(),
                raw@ == sub,
                self.slot_name(o as int) == sub.subrange(0, n as int),
                forall|j: int| 0 <= j < k ==> #[trigger] raw@[j] == name@[j],
            decreases n - k,
        {
            if raw[k] != name[k] {
                proof {
                    assert(sub.subrange(0, n as int)[k as int] != name@[k as int]);
                }
                return Ok(false);
            }
            k = k + 1;
        }
        assert(sub.subrange(0, n as int) =~= name@);
        Ok(true)
    }

    /// Finds the first slot of `zones` that is in use and named `name`.
    fn find_slot(&self, zones: &Vec<u16>, name: &[u8]) -> (r: Result<Option<(usize, u64)>, IoError>)
        requires
            self.wf(),
        ensures
            match r {
                Ok(Some((zi, si))) => self.first_match(zones@, name@, zi as int, si as int)
                    && self.zone_ok(zones@[zi as int]),
                Ok(None) => self.no_match(zones@, name@) && self.zones_ok(zones@),
                Err(e) => e == IoError::OutOfRange && !self.zones_ok(zones@),
            },
    {
        let zs = self.zone_size();
        let es = self.entry_size();
        let spz = zs / es;
        let len = self.disk.len();
        let mut zi: usize = 0;
        while zi < zones.len()
            invariant
                zi <= zones@.len(),
                self.wf(),
                zs == self.zs(),
                es == self.es(),
                spz == self.spz(),
                len == self.disk().len(),
                forall|k: int| 0 <= k < zi ==> #[trigger] self.zone_ok(zones@[k]),
                forall|zj: int, sj: int| 0 <= zj < zi && 0 <= sj < self.spz()
                    ==> !#[trigger] self.slot_is(self.slot_off(zones@[zj], sj), name@),
            decreases zones@.len() - zi,
        {
            let base = match self.zone_offset(zones[zi], 0) {
                Ok(b) => b,
                Err(e) => {
                    assert(!self.zone_ok(zones@[zi as int]));
                    return Err(e);
                },
            };
            if zs > len as u64 || !self.disk.fits(base, zs as usize) {
                assert(!self.zone_ok(zones@[zi as int]));
                return Err(IoError::OutOfRange);
            }
            let mut si: u64 = 0;
            while si < spz
                invariant
                    zi < zones@.len(),
                    si <= spz,
                    self.wf(),
                    zs == self.zs(),
                    es == self.es(),
                    spz == self.spz(),
                    len == self.disk().len(),
                    base == zones@[zi as int] * self.zs(),
                    self.zone_ok(zones@[zi as int]),
                    forall|k: int| 0 <= k < zi ==> #[trigger] self.zone_ok(zones@[k]),
                    forall|zj: int, sj: int| 0 <= zj <= zi && 0 <= sj < self.spz()
                        && (zj < zi || sj < si) ==> !#[trigger] self.slot_is(self.slot_off(zones@[zj], sj), name@),
                decreases spz - si,
            {
                proof {
                    lemma_slot_fits(zs as int, es as int, si as int);
                }
                let o = base + si * es;
                let ino = self.disk.read_u16(o)?;
                if ino != 0 {
                    let same = self.slot_name_is(o, name)?;
                    if same {
                        return Ok(Some((zi, si)));
                    }
                }
                si = si + 1;
            }
            zi = zi + 1;
        }
        Ok(None)
    }

}

/// `zones[i]`, or 0 past its end.
pub open spec fn zone_or_zero(zones: Seq<u16>, i: int) -> u16 {
    if i < zones.len() { zones[i] } else { 0 }
}

/// `n` zeros.
pub open spec fn zeros16(n: int) -> Seq<u16> {
    Seq::new(n as nat, |i: int| 0u16)
}

/// `zones[from..min(to, len)]`, padded with zeros to `to - from`.
pub open spec fn padded(zones: Seq<u16>, from: int, to: int) -> Seq<u16> {
    Seq::new((to - from) as nat, |i: int| zone_or_zero(zones, from + i))
}

/// `zones[from..min(to, len)]` padded with zeros to `to - from` entries.
fn padded_table(zones: &Vec<u16>, from: u64, to: u64) -> (r: Vec<u16>)
    requires
        from <= to,
    ensures
        r@ == padded(zones@, from as int, to as int),
{
    let mut t: Vec<u16> = Vec::new();
    let mut i = from;
    while i < to
        invariant
            from <= i <= to,
            t@ == padded(zones@, from as int, i as int),
        decreases to - i,
    {
        let v = if (i as u128) < (zones.len() as u128) { zones[i as usize] } else { 0 };
        t.push(v);
        i = i + 1;
        assert(t@ =~= padded(zones@, from as int, i as int));
    }
    t
}

/// `new` is `old` with the zone list `zones` stored: the direct slots
/// hold the first seven zones (0 past the end of the list); the
/// single-indirect slot is 0 when the list fits the direct slots and is
/// kept when it was set; the double-indirect slot is 0 or kept when the
/// list fits without it, and kept when it was set; all other fields are
/// unchanged.
pub open spec fn zones_stored(old: DINode, new: DINode, zones: Seq<u16>, per: int) -> bool {
    &&& new.zone@.len() == 9
    &&& new.mode == old.mode && new.size == old.size && new.nlinks == old.nlinks
    &&& new.uid == old.uid && new.gid == old.gid && new.mtime == old.mtime
    &&& forall|i: int| 0 <= i < 7 ==> #[trigger] new.zone@[i] == zone_or_zero(zones, i)
    &&& zones.len() <= 7 ==> new.zone@[7] == 0
    &&& zones.len() > 7 && old.zone@[7] != 0 ==> new.zone@[7] == old.zone@[7]
    &&& zones.len() <= 7 + per ==> new.zone@[8] == 0 || new.zone@[8] == old.zone@[8]
    &&& zones.len() > 7 + per && old.zone@[8] != 0 ==> new.zone@[8] == old.zone@[8]
}

impl MinixFs {
    /// Stores the zone list `zones` in `inode`: the first seven in the
    /// direct slots (0 past the end of the list), the next `zone_size / 2`
    /// in the single-indirect table and the rest, `zone_size / 2` per
    /// table, in the tables of the double-indirect table.  Missing
    /// indirect zones are allocated; when the disk is full the remaining
    /// work is skipped and `Ok` is returned (zones allocated so far stay
    /// allocated).
    pub fn write_file_zones(&mut self, inode: &mut DINode, zones: &Vec<u16>) -> (r: Result<(), IoError>)
        requires
            old(self).wf(),
            old(self).sb().first_data_zone <= old(self).sb().nzones,
            old(inode).zone@.len() == 9,
        ensures
            final(self).wf(),
            final(self).sb() == old(self).sb(),
            zones_stored(*old(inode), *final(inode), zones@, old(self).zs() / 2),
            r is Err ==> r == Err::<(), IoError>(IoError::OutOfRange),
            zones@.len() <= 7 ==> r is Ok && final(self).disk() == old(self).disk(),
            7 < zones@.len() <= 7 + old(self).zs() / 2 && old(inode).zone@[7] != 0 && old(self).zone_ok(old(inode).zone@[7])
                ==> r is Ok && final(self).disk() == splice(old(self).disk(), old(inode).zone@[7] * old(self).zs(),
                    zones_le(padded(zones@, 7, 7 + old(self).zs() / 2))),
    {
        let zs = self.zone_size();
        let per = zs / 2;
        let mut i: usize = 0;
        while i < DIRECT_ZONES
            invariant
                i <= 7,
                inode.zone@.len() == 9,
                forall|k: int| 0 <= k < i ==> #[trigger] inode.zone@[k] == zone_or_zero(zones@, k),
                forall|k: int| 7 <= k < 9 ==> #[trigger] inode.zone@[k] == old(inode).zone@[k],
                inode.mode == old(inode).mode && inode.size == old(inode).size
                    && inode.nlinks == old(inode).nlinks && inode.uid == old(inode).uid
                    && inode.gid == old(inode).gid && inode.mtime == old(inode).mtime,
            decreases 7 - i,
        {
            let v = if i < zones.len() { zones[i] } else { 0 };
            inode.zone.set(i, v);
            i = i + 1;
        }
        let ghost after_direct = *inode;
        // Single indirect: zone[7].
        if zones.len() <= DIRECT_ZONES {
            inode.zone.set(7, 0);
        } else {
            let to = if (zones.len() as u128) < 7 + per as u128 { zones.len() as u64 } else { 7 + per };
            let mut table = padded_table(zones, 7, to);
            let mut k = to - 7;
            proof {
                assert(table@ =~= padded(zones@, 7, 7 + k));
            }
            while k < per
                invariant
                    k <= per,
                    table@.len() == k,
                    table@ == padded(zones@, 7, 7 + k),
                    7 + k >= zones@.len() || k == per,
                decreases per - k,
            {
                table.push(0);
                k = k + 1;
            }
            if inode.zone[7] == 0 {
                match self.alloc_zone()? {
                    Some(ind) => inode.zone.set(7, ind),
                    None => return Ok(()),
                }
            }
            self.write_zone_table(inode.zone[7], &table)?;
        }
        // Double indirect: zone[8].
        if (zones.len() as u128) <= 7 + per as u128 {
            inode.zone.set(8, 0);
        } else {
            proof {
                assert(per == old(self).zs() / 2);
                assert(zones@.len() > 7 + old(self).zs() / 2);
            }
            if inode.zone[8] == 0 {
                match self.alloc_zone()? {
                    Some(ind) => {
                        inode.zone.set(8, ind);
                        let z = padded_table(zones, 0, 0);
                        let mut empty = z;
                        let mut k: u64 = 0;
                        while k < per
                            invariant
                                k <= per,
                                empty@.len() == k,
                            decreases per - k,
                        {
                            empty.push(0);
                            k = k + 1;
                        }
                        self.write_zone_table(ind, &empty)?;
                    },
                    None => return Ok(()),
                }
            }
            let mut dbl = self.read_zone_table(inode.zone[8])?;
            let ghost ib = *inode;
            let mut g: u64 = 0;
            let mut start: u64 = 7 + per;
            while g < per && (start as u128) < (zones.len() as u128)
                invariant
                    self.wf(),
                    self.sb() == old(self).sb(),
                    per == self.zs() / 2,
                    dbl@.len() == per,
                    inode.zone@.len() == 9,
                    self.sb().first_data_zone <= self.sb().nzones,
                    *inode == ib,
                    zones_stored(*old(inode), ib, zones@, per as int),
                    zones@.len() > 7 + per,
                decreases per - g,
            {
                let ind = if dbl[g as usize] != 0 {
                    dbl[g as usize]
                } else {
                    match self.alloc_zone()? {
                        Some(ind) => {
                            dbl.set(g as usize, ind);
                            ind
                        },
                        None => return Ok(()),
                    }
                };
                let end = if (zones.len() as u128) < start as u128 + per as u128 { zones.len() as u64 } else { start + per };
                let mut table = padded_table(zones, start, end);
                let mut k = end - start;
                while k < per
                    invariant
                        k <= per,
                        table@.len() == k,
                    decreases per - k,
                {
                    table.push(0);
                    k = k + 1;
                }
                self.write_zone_table(ind, &table)?;
                g = g + 1;
                start = end;
            }
            self.write_zone_table(inode.zone[8], &dbl)?;
        }
        Ok(())
    }
}

/// A name a directory entry can hold: not empty, at most `max` bytes,
/// no `/`.
pub open spec fn valid_name_spec(name: Seq<u8>, max: int) -> bool {
    &&& name.len() > 0
    &&& name.len() <= max
    &&& forall|i: int| 0 <= i < name.len() ==> #[trigger] name[i] != 0x2f
}

/// The bytes of a directory entry for `ino` named `name`, `es` bytes
/// long (the name NUL-padded).
pub open spec fn entry_bytes(ino: u16, name: Seq<u8>, es: int) -> Seq<u8> {
    le16(ino) + name + Seq::new((es - 2 - name.len()) as nat, |i: int| 0u8)
}

/// Builds the bytes of a directory entry.
fn entry_slot(ino: u16, name: &[u8], es: u64) -> (r: Vec<u8>)
    requires
        2 + name@.len() <= es <= 32,
    ensures
        r@ == entry_bytes(ino, name@, es as int),
        r@.len() == es,
{
    let mut b: Vec<u8> = Vec::new();
    push_u16(&mut b, ino);
    let mut i: usize = 0;
    while i < name.len()
        invariant
            i <= name@.len(),
            b@ == le16(ino) + name@.subrange(0, i as int),
        decreases name@.len() - i,
    {
        b.push(name[i]);
        i = i + 1;
        assert(b@ =~= le16(ino) + name@.subrange(0, i as int));
    }
    let mut k: u64 = 2 + name.len() as u64;
    while k < es
        invariant
            2 + name@.len() <= k <= es,
            b@ == le16(ino) + name@ + Seq::new((k - 2 - name@.len()) as nat, |i: int| 0u8),
        decreases es - k,
    {
        b.push(0);
        k = k + 1;
        assert(b@ =~= le16(ino) + name@ + Seq::new((k - 2 - name@.len()) as nat, |i: int| 0u8));
    }
    b
}

impl MinixFs {
    /// The data zones of directory `dir`.
    pub open spec fn dir_zones(&self, dir: u16) -> Seq<u16> {
        self.data_zones_of(self.inode(dir).zone)
    }

    /// The directory `dir` and its zone list can be read.
    pub open spec fn dir_ok(&self, dir: u16) -> bool {
        self.inode_ok(dir) && self.data_zones_ok(self.inode(dir).zone)
    }

    /// The directory `dir`, its zone list and its zones can be read.
    pub open spec fn dir_readable(&self, dir: u16) -> bool {
        self.dir_ok(dir) && self.zones_ok(self.dir_zones(dir))
    }

    /// Whether `name` can name a directory entry: not empty, not longer
    /// than the entry name field, no `/`.
    pub fn valid_name(&self, name: &str) -> (r: bool)
        ensures
            r == valid_name_spec(name.spec_bytes(), self.sb().spec_name_len()),
    {
        let b = name.as_bytes();
        let max = self.superblock.name_len();
        if b.len() == 0 || b.len() as u64 > max {
            return false;
        }
        let mut i: usize = 0;
        while i < b.len()
            invariant
                i <= b@.len(),
                b@ == name.spec_bytes(),
                forall|k: int| 0 <= k < i ==> #[trigger] b@[k] != 0x2f,
            decreases b@.len() - i,
        {
            if b[i] == 0x2f {
                assert(name.spec_bytes()[i as int] == 0x2f);
                return false;
            }
            i = i + 1;
        }
        true
    }

    /// The inode number of the first entry of directory `dir` named
    /// `name` (zones in order, slots in order).
    pub fn find_dir_entry_ino(&self, dir: u16, name: &[u8]) -> (r: Result<Option<u16>, IoError>)
        requires
            self.wf(),
            dir >= 1,
        ensures
            match r {
                Ok(Some(ino)) => self.dir_ok(dir) && exists|zi: int, si: int| #[trigger] self.first_match(
                    self.dir_zones(dir),
                    name@,
                    zi,
                    si,
                ) && ino == self.slot_ino(self.slot_off(self.dir_zones(dir)[zi], si)),
                Ok(None) => self.dir_ok(dir) && self.no_match(self.dir_zones(dir), name@),
                Err(e) => e == IoError::OutOfRange && !self.dir_readable(dir),
            },
    {
        let len = self.disk.len();
        let d = self.read_inode(dir)?;
        let zones = self.data_zones(&d)?;
        match self.find_slot(&zones, name)? {
            Some((zi, si)) => {
                let zs = self.zone_size();
                let es = self.entry_size();
                proof {
                    lemma_slot_fits(zs as int, es as int, si as int);
                    assert(self.first_match(self.dir_zones(dir), name@, zi as int, si as int));
                }
                let base = self.zone_offset(zones[zi], 0)?;
                let ino = self.disk.read_u16(base + si * es)?;
                Ok(Some(ino))
            },
            None => Ok(None),
        }
    }

    /// Clears the first entry of directory `dir` named `name`; `false`
    /// when there is none.
    pub fn remove_dir_entry(&mut self, dir: u16, name: &[u8]) -> (r: Result<bool, IoError>)
        requires
            old(self).wf(),
            dir >= 1,
        ensures
            final(self).sb() == old(self).sb(),
            final(self).wf(),
            final(self).disk().len() == old(self).disk().len(),
            match r {
                Ok(true) => old(self).dir_ok(dir) && exists|zi: int, si: int| #[trigger] old(self).first_match(
                    old(self).dir_zones(dir),
                    name@,
                    zi,
                    si,
                ) && final(self).disk() == splice(
                    old(self).disk(),
                    old(self).slot_off(old(self).dir_zones(dir)[zi], si),
                    Seq::new(old(self).es() as nat, |i: int| 0u8),
                ),
                Ok(false) => old(self).dir_ok(dir) && old(self).no_match(old(self).dir_zones(dir), name@)
                    && final(self).disk() == old(self).disk(),
                Err(e) => e == IoError::OutOfRange && final(self).disk() == old(self).disk()
                    && !old(self).dir_readable(dir),
            },
    {
        let len = self.disk.len();
        let d = self.read_inode(dir)?;
        let zones = self.data_zones(&d)?;
        match self.find_slot(&zones, name)? {
            Some((zi, si)) => {
                let zs = self.zone_size();
                let es = self.entry_size();
                proof {
                    lemma_slot_fits(zs as int, es as int, si as int);
                    assert(self.first_match(self.dir_zones(dir), name@, zi as int, si as int));
                }
                let base = self.zone_offset(zones[zi], 0)?;
                let mut z: Vec<u8> = Vec::new();
                let mut k: u64 = 0;
                while k < es
                    invariant
                        k <= es,
                        z@ == Seq::new(k as nat, |i: int| 0u8),
                    decreases es - k,
                {
                    z.push(0);
                    k = k + 1;
                    assert(z@ =~= Seq::new(k as nat, |i: int| 0u8));
                }
                self.disk.write(base + si * es, z.as_slice())?;
                Ok(true)
            },
            None => Ok(false),
        }
    }
}

/// Disk position of byte `k` of a file with zone list `zones`.
pub open spec fn file_pos(zones: Seq<u16>, zs: int, k: int) -> int {
    zones[k / zs] * zs + k % zs
}

/// Byte `k` of a file with zone list `zones`.
pub open spec fn file_byte(d: Seq<u8>, zones: Seq<u16>, zs: int, k: int) -> u8 {
    d[file_pos(zones, zs, k)]
}

/// The `n` bytes of a file with zone list `zones` from byte `offset` on
/// all lie on the disk `d`.
pub open spec fn on_disk(d: Seq<u8>, zones: Seq<u16>, zs: int, offset: int, n: int) -> bool {
    forall|k: int| offset <= k < offset + n ==> #[trigger] file_pos(zones, zs, k) < d.len()
}

/// The smaller of `a` and `b`.
pub open spec fn min_int(a: int, b: int) -> int {
    if a < b { a } else { b }
}

/// The number of bytes a read of `len` bytes at `offset` returns from a
/// file of `size` bytes whose zones cover `covered` bytes.
pub open spec fn read_len(offset: int, len: int, size: int, covered: int) -> int {
    let end = min_int(offset + len, min_int(size, covered));
    if end > offset { end - offset } else { 0 }
}

/// A file opened on a [`MinixFs`]: its inode (as read when opened), the
/// expanded zone list and a read/write position.
pub struct File {
    path: Vec<u8>,
    ino: u16,
    inode: DINode,
    zone_size: u64,
    zones: Vec<u16>,
    offset: u64,
}

impl File {
    /// Inode number.
    pub closed spec fn spec_ino(&self) -> u16 {
        self.ino
    }

    /// The inode as held by the file.
    pub closed spec fn spec_inode(&self) -> InodeV {
        self.inode@
    }

    /// The zone list held by the file.
    pub closed spec fn spec_zones(&self) -> Seq<u16> {
        self.zones@
    }

    /// Zone size the file was opened with.
    pub closed spec fn spec_zone_size(&self) -> int {
        self.zone_size as int
    }

    /// Read/write position.
    pub closed spec fn spec_offset(&self) -> u64 {
        self.offset
    }

    /// Path the file was opened with (bytes).
    pub closed spec fn spec_path(&self) -> Seq<u8> {
        self.path@
    }

    /// The file belongs to `fs`: same zone size, a nine-slot inode.
    pub closed spec fn on(&self, fs: &MinixFs) -> bool {
        self.zone_size == fs.zs() && self.inode.zone@.len() == 9 && self.ino >= 1
    }

    /// A file at position 0.
    pub fn new(fs: &MinixFs, path: Vec<u8>, ino: u16, inode: DINode, zones: Vec<u16>) -> (r: File)
        requires
            fs.wf(),
            ino >= 1,
            inode.zone@.len() == 9,
        ensures
            r.on(fs),
            r.spec_ino() == ino,
            r.spec_inode() == inode@,
            r.spec_zones() == zones@,
            r.spec_offset() == 0,
            r.spec_path() == path@,
    {
        File { path, ino, inode, zone_size: fs.zone_size(), zones, offset: 0 }
    }

    /// Inode number.
    pub fn ino(&self) -> (r: u16)
        ensures
            r == self.spec_ino(),
    {
        self.ino
    }

    /// File size in bytes.
    pub fn size(&self) -> (r: u32)
        ensures
            r == self.spec_inode().size,
    {
        self.inode.size
    }

    /// Read/write position.
    pub fn offset(&self) -> (r: u64)
        ensures
            r == self.spec_offset(),
    {
        self.offset
    }

    /// The path the file was opened with.
    pub fn path(&self) -> (r: &Vec<u8>)
        ensures
            r@ == self.spec_path(),
    {
        &self.path
    }

    /// File type bits of the mode.
    pub fn file_type(&self) -> (r: u16)
        ensures
            r == self.spec_inode().mode / 4096,
    {
        self.inode.mode / 4096
    }

    /// Moves the position: `offset` from the start, the current position
    /// or the end, clamped to `[0, size]`; returns the new position.
    /// Positioning never fails.
    pub fn seek(&mut self, offset: i64, whence: Whence) -> (r: Result<u64, IoError>)
        ensures
            final(self).spec_ino() == old(self).spec_ino(),
            final(self).spec_inode() == old(self).spec_inode(),
            final(self).spec_zones() == old(self).spec_zones(),
            final(self).spec_path() == old(self).spec_path(),
            final(self).spec_zone_size() == old(self).spec_zone_size(),
            ({
                let size = old(self).spec_inode().size as int;
                let target = match whence {
                    Whence::Start => offset as int,
                    Whence::End => size + offset,
                    Whence::Current => old(self).spec_offset() + offset,
                };
                let p = if target < 0 { 0 } else if target > size { size } else { target };
                r == Ok::<u64, IoError>(p as u64) && final(self).spec_offset() == p
            }),
    {
        let size = self.inode.size as i128;
        let new: i128 = match whence {
            Whence::Start => offset as i128,
            Whence::End => size + offset as i128,
            Whence::Current => self.offset as i128 + offset as i128,
        };
        let p: i128 = if new < 0 { 0 } else if new > size { size } else { new };
        self.offset = p as u64;
        Ok(p as u64)
    }

    /// Reads up to `len` bytes at `offset` without moving the position:
    /// the bytes before the end of the file and of its zones.
    pub fn read_at(&self, fs: &MinixFs, len: usize, offset: u64) -> (r: Result<Vec<u8>, IoError>)
        requires
            fs.wf(),
            self.on(fs),
        ensures
            match r {
                Ok(v) => v@.len() == read_len(offset as int, len as int, self.spec_inode().size as int,
                    self.spec_zones().len() * fs.zs())
                    && forall|i: int| 0 <= i < v@.len() ==> #[trigger] v@[i] == file_byte(fs.disk(),
                        self.spec_zones(), fs.zs(), offset + i),
                Err(e) => e == IoError::OutOfRange && !on_disk(fs.disk(), self.spec_zones(), fs.zs(), offset as int,
                    read_len(offset as int, len as int, self.spec_inode().size as int, self.spec_zones().len() * fs.zs())),
            },
    {
        let zs = fs.zone_size();
        let size = self.inode.size as u64;
        let nz = self.zones.len();
        let mut out: Vec<u8> = Vec::new();
        let mut pos: u64 = offset;
        let mut done: usize = 0;
        let ghost covered = nz * zs;
        while pos < size && done < len
            invariant
                fs.wf(),
                zs == fs.zs(),
                zs >= 1024,
                size == self.spec_inode().size,
                nz == self.spec_zones().len(),
                covered == nz * zs,
                done <= len,
                pos == offset + done,
                out@.len() == done,
                done > 0 ==> pos <= min_int(size as int, covered),
                forall|i: int| 0 <= i < done ==> #[trigger] out@[i] == file_byte(fs.disk(), self.spec_zones(), zs as int, offset + i),
            ensures
                out@.len() == read_len(offset as int, len as int, size as int, covered),
                forall|i: int| 0 <= i < out@.len() ==> #[trigger] out@[i] == file_byte(fs.disk(), self.spec_zones(), zs as int, offset + i),
            decreases len - done,
        {
            let zi = pos / zs;
            let in_zone = pos % zs;
            let mut n = zs - in_zone;
            if size - pos < n {
                n = size - pos;
            }
            if ((len - done) as u64) < n {
                n = (len - done) as u64;
            }
            if zi >= nz as u64 {
                proof {
                    vstd::arithmetic::div_mod::lemma_fundamental_div_mod(pos as int, zs as int);
                    assert(pos >= covered) by (nonlinear_arith)
                        requires zi >= nz, pos == zs * zi + in_zone, in_zone >= 0, covered == nz * zs, zs > 0;
                }
                break;
            }
            let zone = self.zones[zi as usize];
            let dlen = fs.disk.len();
            proof {
                vstd::arithmetic::div_mod::lemma_fundamental_div_mod(pos as int, zs as int);
                assert(pos + n <= covered) by (nonlinear_arith)
                    requires pos == zs * zi + in_zone, n <= zs - in_zone, zi < nz, covered == nz * zs;
                assert(n >= 1);
                assert(pos + n <= offset + read_len(offset as int, len as int, size as int, covered));
                assert(pos + n - 1 == zi * zs + (in_zone + n - 1)) by (nonlinear_arith)
                    requires pos == zs * zi + in_zone;
                vstd::arithmetic::div_mod::lemma_fundamental_div_mod_converse_div(pos + n - 1, zs as int, zi as int, in_zone + n - 1);
                vstd::arithmetic::div_mod::lemma_fundamental_div_mod_converse_mod(pos + n - 1, zs as int, zi as int, in_zone + n - 1);
                assert(file_pos(self.spec_zones(), zs as int, pos as int) == zone * zs + in_zone);
                assert(file_pos(self.spec_zones(), zs as int, pos + n - 1) == zone * zs + in_zone + n - 1);
                assert(zone * zs + in_zone > u64::MAX ==> file_pos(self.spec_zones(), zs as int, pos as int) >= fs.disk().len());
            }
            let o = fs.zone_offset(zone, in_zone)?;
            proof {
                assert(!in_range(fs.disk(), o as int, n as int) ==>
                    file_pos(self.spec_zones(), zs as int, pos + n - 1) >= fs.disk().len());
            }
            let chunk = fs.disk.read(o, n as usize)?;
            proof {
                vstd::arithmetic::div_mod::lemma_fundamental_div_mod(pos as int, zs as int);
                assert forall|j: int| 0 <= j < n implies #[trigger] chunk@[j] == file_byte(fs.disk(),
                    self.spec_zones(), zs as int, pos + j) by {
                    assert(pos + j == zi * zs + (in_zone + j)) by (nonlinear_arith)
                        requires pos == zs * zi + in_zone;
                    vstd::arithmetic::div_mod::lemma_fundamental_div_mod_converse_div(pos + j, zs as int, zi as int, in_zone + j);
                    vstd::arithmetic::div_mod::lemma_fundamental_div_mod_converse_mod(pos + j, zs as int, zi as int, in_zone + j);
                }
                assert(pos + n <= covered) by (nonlinear_arith)
                    requires pos == zs * zi + in_zone, n <= zs - in_zone, zi < nz, covered == nz * zs;
            }
            let ghost before = out@;
            let mut c = chunk;
            out.append(&mut c);
            pos = pos + n;
            done = done + n as usize;
            proof {
                assert forall|i: int| 0 <= i < done implies #[trigger] out@[i] == file_byte(fs.disk(),
                    self.spec_zones(), zs as int, offset + i) by {
                    if i >= before.len() {
                        assert(out@[i] == chunk@[i - before.len()]);
                    }
                }
            }
        }
        Ok(out)
    }

    /// Reads up to `len` bytes at the position and advances it.
    pub fn read(&mut self, fs: &MinixFs, len: usize) -> (r: Result<Vec<u8>, IoError>)
        requires
            fs.wf(),
            old(self).on(fs),
        ensures
            final(self).spec_inode() == old(self).spec_inode(),
            final(self).spec_zones() == old(self).spec_zones(),
            final(self).on(fs),
            match r {
                Ok(v) => v@.len() == read_len(old(self).spec_offset() as int, len as int,
                    old(self).spec_inode().size as int, old(self).spec_zones().len() * fs.zs())
                    && (forall|i: int| 0 <= i < v@.len() ==> #[trigger] v@[i] == file_byte(fs.disk(),
                        old(self).spec_zones(), fs.zs(), old(self).spec_offset() + i))
                    && final(self).spec_offset() == old(self).spec_offset() + v@.len(),
                Err(e) => e == IoError::OutOfRange && final(self).spec_offset() == old(self).spec_offset()
                    && !on_disk(fs.disk(), old(self).spec_zones(), fs.zs(), old(self).spec_offset() as int,
                    read_len(old(self).spec_offset() as int, len as int, old(self).spec_inode().size as int,
                        old(self).spec_zones().len() * fs.zs())),
            },
    {
        let v = self.read_at(fs, len, self.offset)?;
        proof {
            assert(v@.len() <= self.spec_inode().size);
        }
        self.offset = self.offset + v.len() as u64;
        Ok(v)
    }
}

/// Zones of `zones` are pairwise different.
pub open spec fn distinct_zones(zones: Seq<u16>) -> bool {
    forall|i: int, j: int| 0 <= i < zones.len() && 0 <= j < zones.len() && i != j ==> #[trigger] zones[i] != #[trigger] zones[j]
}

/// No zone of `zones` overlaps the byte range `[lo, hi)`.
pub open spec fn zones_clear_of(zones: Seq<u16>, zs: int, lo: int, hi: int) -> bool {
    forall|i: int| 0 <= i < zones.len() ==> #[trigger] zones[i] * zs + zs <= lo || zones[i] * zs >= hi
}

proof fn lemma_zone_pos(a: int, b: int, r: int, q: int, zs: int)
    requires
        zs > 0,
        0 <= r < zs,
        0 <= q < zs,
        a != b,
        a >= 0,
        b >= 0,
    ensures
        a * zs + r != b * zs + q,
        a < b ==> a * zs + r < b * zs,
        b < a ==> b * zs + zs <= a * zs,
{
    if a < b {
        assert(a * zs + zs <= b * zs) by (nonlinear_arith) requires a < b, zs > 0;
    } else {
        assert(b * zs + zs <= a * zs) by (nonlinear_arith) requires b < a, zs > 0;
    }
}

impl File {
    /// Writes `buf` at `offset` (an offset past the end appends at the
    /// end), allocating zones as needed and growing the size; returns how
    /// many bytes were written (fewer than asked when the disk is full).
    /// The position does not move.
    pub fn write_at(&mut self, fs: &mut MinixFs, buf: &[u8], offset: u64) -> (r: Result<usize, IoError>)
        requires
            old(fs).wf(),
            old(fs).sb().first_data_zone <= old(fs).sb().nzones,
            old(self).on(old(fs)),
        ensures
            final(fs).wf(),
            final(fs).sb() == old(fs).sb(),
            final(self).on(final(fs)),
            final(self).spec_ino() == old(self).spec_ino(),
            final(self).spec_offset() == old(self).spec_offset(),
            final(self).spec_path() == old(self).spec_path(),
            old(self).spec_zones() == final(self).spec_zones().subrange(0, old(self).spec_zones().len() as int),
            buf@.len() == 0 ==> r == Ok::<usize, IoError>(0),
            match r {
                Ok(done) => {
                    let start = min_int(offset as int, old(self).spec_inode().size as int);
                    &&& done <= buf@.len()
                    &&& (buf@.len() == 0 ==> done == 0 && *final(self) == *old(self) && final(fs).disk() == old(fs).disk())
                    &&& done > 0 ==> start + done <= final(self).spec_zones().len() * final(fs).zs()
                    &&& final(self).spec_inode().size == if start + done > old(self).spec_inode().size {
                        (start + done) as u32
                    } else {
                        old(self).spec_inode().size
                    }
                    &&& (distinct_zones(final(self).spec_zones()) && zones_clear_of(final(self).spec_zones(), final(fs).zs(),
                        final(fs).inode_off(old(self).spec_ino()), final(fs).inode_off(old(self).spec_ino()) + 32))
                        ==> forall|i: int| 0 <= i < done ==> #[trigger] file_byte(final(fs).disk(), final(self).spec_zones(),
                            final(fs).zs(), start + i) == buf@[i]
                },
                Err(e) => e == IoError::OutOfRange,
            },
    {
        if buf.len() == 0 {
            return Ok(0);
        }
        let zs = fs.zone_size();
        let size = self.inode.size as u64;
        let start = if offset < size { offset } else { size };
        let end: u64 = if (u64::MAX - start) < buf.len() as u64 { u64::MAX } else { start + buf.len() as u64 };
        assert(end / zs < 0xffff_ffff_ffff_ffffu64) by (nonlinear_arith)
            requires zs >= 1024;
        let need = end / zs + if end % zs == 0 { 0 } else { 1 };
        let ghost z0 = self.zones@;
        let grew = (self.zones.len() as u64) < need;
        let mut budget = need;
        while (self.zones.len() as u64) < need
            invariant
                buf@.len() > 0,
                fs.wf(),
                fs.sb() == old(fs).sb(),
                fs.sb().first_data_zone <= fs.sb().nzones,
                zs == fs.zs(),
                self.on(fs),
                self.ino == old(self).ino && self.offset == old(self).offset && self.path == old(self).path,
                self.inode == old(self).inode,
                z0.len() <= self.zones@.len(),
                z0 == self.zones@.subrange(0, z0.len() as int),
                z0 == old(self).zones@,
            decreases need - self.zones@.len(),
        {
            match fs.alloc_zone()? {
                Some(z) => {
                    self.zones.push(z);
                    assert(z0 =~= self.zones@.subrange(0, z0.len() as int));
                },
                None => break,
            }
        }
        if grew {
            fs.write_file_zones(&mut self.inode, &self.zones)?;
        }
        let ghost zl = self.zones@;
        let nzu = self.zones.len();
        let nz = nzu as u64;
        let bl = buf.len();
        let mut pos: u128 = start as u128;
        let mut done: usize = 0;
        let ghost covered = nz * zs;
        let ghost dlen = fs.disk().len();
        while pos < (end as u128) && done < bl
            invariant
                buf@.len() > 0,
                fs.wf(),
                fs.sb() == old(fs).sb(),
                fs.disk().len() == dlen,
                zs == fs.zs(),
                zs >= 1024,
                self.on(fs),
                self.ino == old(self).ino && self.offset == old(self).offset && self.path == old(self).path,
                self.inode.size == old(self).inode.size,
                self.zones@ == zl,
                z0.len() <= zl.len(),
                z0 == zl.subrange(0, z0.len() as int),
                z0 == old(self).zones@,
                nz == zl.len(),
                nzu == nz,
                covered == nz * zs,
                bl == buf@.len(),
                done <= bl,
                pos == start + done,
                start + done <= covered || done == 0,
                forall|i: int| 0 <= i < done ==> #[trigger] file_pos(zl, zs as int, start + i) < dlen,
                distinct_zones(zl) ==> forall|i: int| 0 <= i < done ==> #[trigger] file_byte(fs.disk(), zl, zs as int, start + i) == buf@[i],
            ensures
                done > 0 ==> start + done <= covered,
                done <= buf@.len(),
                fs.disk().len() == dlen,
                forall|i: int| 0 <= i < done ==> #[trigger] file_pos(zl, zs as int, start + i) < dlen,
                distinct_zones(zl) ==> forall|i: int| 0 <= i < done ==> #[trigger] file_byte(fs.disk(), zl, zs as int, start + i) == buf@[i],
            decreases buf@.len() - done,
        {
            let zi = pos / (zs as u128);
            let in_zone = (pos % (zs as u128)) as u64;
            proof {
                vstd::arithmetic::div_mod::lemma_fundamental_div_mod(pos as int, zs as int);
            }
            if zi >= nz as u128 {
                proof {
                    assert(pos >= covered) by (nonlinear_arith)
                        requires zi >= nz, pos == zs * zi + in_zone, in_zone >= 0, covered == nz * zs, zs > 0;
                }
                break;
            }
            let zix = zi as usize;
            assert(zix == zi);
            let zone = self.zones[zix];
            assert(zone == zl[zi as int]);
            let mut n = zs - in_zone;
            if ((bl - done) as u64) < n {
                n = (bl - done) as u64;
            }
            let o = fs.zone_offset(zone, in_zone)?;
            let mut chunk: Vec<u8> = Vec::new();
            let mut k: usize = 0;
            assert(n <= bl - done);
            let nn = n as usize;
            while k < nn
                invariant
                    buf@.len() > 0,
                    k <= nn,
                    nn == n,
                    bl == buf@.len(),
                    done + nn <= bl,
                    chunk@ == buf@.subrange(done as int, done + k),
                decreases nn - k,
            {
                chunk.push(buf[done + k]);
                k = k + 1;
                assert(chunk@ =~= buf@.subrange(done as int, done + k));
            }
            let ghost d0 = fs.disk();
            fs.disk.write(o, chunk.as_slice())?;
            proof {
                assert(pos + n <= covered) by (nonlinear_arith)
                    requires pos == zs * zi + in_zone, n <= zs - in_zone, zi < nz, covered == nz * zs;
                assert(o + n <= dlen);
                assert forall|i: int| 0 <= i < done + n implies #[trigger] file_pos(zl, zs as int, start + i) < dlen by {
                    if i >= done {
                        let j = i - done;
                        let p = start + i;
                        assert(file_pos(zl, zs as int, p) == zl[p / (zs as int)] * zs + p % (zs as int));
                        assert(p == zi * zs + (in_zone + j)) by (nonlinear_arith)
                            requires pos == zs * zi + in_zone, p == pos + j;
                        vstd::arithmetic::div_mod::lemma_fundamental_div_mod_converse_div(p, zs as int, zi as int, in_zone + j);
                        vstd::arithmetic::div_mod::lemma_fundamental_div_mod_converse_mod(p, zs as int, zi as int, in_zone + j);
                    }
                }
                if distinct_zones(zl) {
                    assert forall|i: int| 0 <= i < done + n implies #[trigger] file_byte(fs.disk(), zl, zs as int, start + i) == buf@[i] by {
                        let p = start + i;
                        let q = p / (zs as int);
                        let rr = p % (zs as int);
                        vstd::arithmetic::div_mod::lemma_fundamental_div_mod(p, zs as int);
                        if i < done {
                            assert(q <= zi) by (nonlinear_arith)
                                requires p < pos, pos == zs * zi + in_zone, p == zs * q + rr, 0 <= rr < zs, 0 <= in_zone < zs, zs > 0, p >= 0;
                            let a = zl[q] * (zs as int) + rr;
                            if q < zi {
                                assert(zl[q] != zl[zi as int]);
                                lemma_zone_pos(zl[q] as int, zone as int, rr, in_zone as int, zs as int);
                                assert(a < zone * zs || a >= zone * zs + zs) by (nonlinear_arith)
                                    requires zl[q] != zone, 0 <= rr < zs, zs > 0, a == zl[q] * zs + rr, zl[q] >= 0, zone >= 0;
                            } else {
                                assert(rr < in_zone) by (nonlinear_arith)
                                    requires q == zi, p < pos, pos == zs * zi + in_zone, p == zs * q + rr;
                            }
                            assert(a < o || a >= o + n) by (nonlinear_arith)
                                requires a < zone * zs || a >= zone * zs + zs || (q == zi && a == zone * zs + rr && rr < in_zone),
                                    o == zone * zs + in_zone, n <= zs - in_zone, q <= zi;
                            assert(a == file_pos(zl, zs as int, p));
                            assert(a < dlen);
                            assert(file_byte(d0, zl, zs as int, p) == buf@[i]);
                            assert(fs.disk()[a] == d0[a]);
                        } else {
                            let j = i - done;
                            assert(p == zi * zs + (in_zone + j)) by (nonlinear_arith)
                                requires pos == zs * zi + in_zone, p == pos + j;
                            vstd::arithmetic::div_mod::lemma_fundamental_div_mod_converse_div(p, zs as int, zi as int, in_zone + j);
                            vstd::arithmetic::div_mod::lemma_fundamental_div_mod_converse_mod(p, zs as int, zi as int, in_zone + j);
                            assert(file_pos(zl, zs as int, p) == o + j);
                            assert(chunk@[j] == buf@[i]);
                            assert(fs.disk()[o + j] == chunk@[j]);
                        }
                    }
                }
            }
            pos = pos + n as u128;
            done = done + nn;
        }
        let total: u128 = start as u128 + done as u128;
        let ghost d1 = fs.disk();
        if total > self.inode.size as u128 {
            self.inode.size = total as u32;
            fs.write_inode(self.ino, &self.inode)?;
            proof {
                let io = fs.inode_off(self.ino);
                if distinct_zones(zl) && zones_clear_of(zl, zs as int, io, io + 32) {
                    assert forall|i: int| 0 <= i < done implies #[trigger] file_byte(fs.disk(), zl, zs as int, start + i) == buf@[i] by {
                        let p = start + i;
                        let q = p / (zs as int);
                        let rr = p % (zs as int);
                        vstd::arithmetic::div_mod::lemma_fundamental_div_mod(p, zs as int);
                        assert(file_byte(d1, zl, zs as int, p) == buf@[i]);
                        assert(0 <= q < zl.len()) by (nonlinear_arith)
                            requires p < covered, p == zs * q + rr, 0 <= rr < zs, covered == nz * zs, nz == zl.len(), p >= 0;
                        let a = zl[q] * (zs as int) + rr;
                        assert(a == file_pos(zl, zs as int, p));
                        assert(a < dlen);
                        assert(a + 1 <= io || a >= io + 32) by (nonlinear_arith)
                            requires zl[q] * zs + zs <= io || zl[q] * zs >= io + 32, 0 <= rr < zs, a == zl[q] * zs + rr;
                        assert(fs.disk()[a] == d1[a]);
                    }
                }
            }
        }
        Ok(done)
    }
}

/// A read gives back what a write wrote: when `write_at` wrote `done`
/// bytes of `buf` starting at file position `start` (the zones of the
/// file pairwise different and clear of its inode, the end below 4 GiB),
/// a `read_at` of `done` bytes at `start` returns exactly those bytes.
pub proof fn law_read_after_write(fs: &MinixFs, f: &File, buf: Seq<u8>, start: int, done: int, old_size: u32)
    requires
        fs.wf(),
        f.on(fs),
        0 <= start,
        0 < done <= buf.len(),
        start + done <= u32::MAX,
        start + done <= f.spec_zones().len() * fs.zs(),
        f.spec_inode().size == if start + done > old_size { (start + done) as u32 } else { old_size },
        start <= old_size,
        distinct_zones(f.spec_zones()),
        zones_clear_of(f.spec_zones(), fs.zs(), fs.inode_off(f.spec_ino()), fs.inode_off(f.spec_ino()) + 32)
            ==> forall|i: int| 0 <= i < done ==> #[trigger] file_byte(fs.disk(), f.spec_zones(), fs.zs(), start + i) == buf[i],
        zones_clear_of(f.spec_zones(), fs.zs(), fs.inode_off(f.spec_ino()), fs.inode_off(f.spec_ino()) + 32),
    ensures
        read_len(start, done, f.spec_inode().size as int, f.spec_zones().len() * fs.zs()) == done,
        forall|i: int| 0 <= i < done ==> #[trigger] file_byte(fs.disk(), f.spec_zones(), fs.zs(), start + i) == buf[i],
{
}

impl File {
    /// Writes `buf` at the position (see [`Self::write_at`]) and advances
    /// the position by the number of bytes written.
    pub fn write(&mut self, fs: &mut MinixFs, buf: &[u8]) -> (r: Result<usize, IoError>)
        requires
            old(fs).wf(),
            old(fs).sb().first_data_zone <= old(fs).sb().nzones,
            old(self).on(old(fs)),
        ensures
            final(fs).wf(),
            final(fs).sb() == old(fs).sb(),
            final(self).on(final(fs)),
            final(self).spec_ino() == old(self).spec_ino(),
            buf@.len() == 0 ==> r == Ok::<usize, IoError>(0) && *final(self) == *old(self)
                && final(fs).disk() == old(fs).disk(),
            match r {
                Ok(n) => n <= buf@.len() && final(self).spec_offset() == old(self).spec_offset() + n,
                Err(e) => e == IoError::OutOfRange,
            },
    {
        let n = self.write_at(fs, buf, self.offset)?;
        if self.offset <= u64::MAX - n as u64 {
            self.offset = self.offset + n as u64;
            Ok(n)
        } else {
            Err(IoError::OutOfRange)
        }
    }
}

/// The inode of a fresh file: mode `mode`, `nlinks` links, empty.
pub open spec fn fresh_inode(mode: u16, nlinks: u8) -> InodeV {
    InodeV { mode, uid: 0, size: 0, mtime: 0, gid: 0, nlinks, zone: Seq::new(9, |i: int| 0u16) }
}

impl MinixFs {
    /// Every inode number that the inode bitmap covers has its slot on
    /// the disk.
    pub open spec fn inode_slots_ok(&self) -> bool {
        forall|j: u16| 1 <= j < self.imap_cap() ==> #[trigger] self.inode_ok(j)
    }

    /// The inode bitmap lies on the disk and marks every inode number it
    /// covers in use.
    pub open spec fn inodes_full(&self) -> bool {
        &&& in_range(self.disk(), self.imap_off(), self.imap_bytes())
        &&& forall|j: int| 1 <= j < self.imap_cap() ==> #[trigger] self.inode_used(j)
    }

    /// Allocates an inode and stores an empty inode with mode `mode` and
    /// one link in it.
    pub fn alloc_empty_inode(&mut self, mode: u16) -> (r: Result<Option<u16>, IoError>)
        requires
            old(self).wf(),
        ensures
            final(self).wf(),
            final(self).sb() == old(self).sb(),
            old(self).inodes_full() ==> r == Ok::<Option<u16>, IoError>(None) && final(self).disk() == old(self).disk(),
            match r {
                Ok(Some(ino)) => 1 <= ino && !old(self).inode_used(ino as int)
                    && (forall|j: int| 1 <= j < ino ==> #[trigger] old(self).inode_used(j))
                    && final(self).inode(ino) == fresh_inode(mode, 1)
                    && final(self).disk().len() == old(self).disk().len()
                    && (in_range(old(self).disk(), old(self).zmap_off(), old(self).zmap_bytes())
                        ==> forall|z: int| old(self).sb().first_data_zone <= z
                            && z - old(self).sb().first_data_zone + 1 < old(self).zmap_cap()
                            ==> #[trigger] final(self).zone_used(z) == old(self).zone_used(z)),
                Ok(None) => (forall|j: int| 1 <= j < old(self).imap_cap() ==> #[trigger] old(self).inode_used(j))
                    && final(self).disk() == old(self).disk(),
                Err(e) => e == IoError::OutOfRange && !(in_range(old(self).disk(), old(self).imap_off(), old(self).imap_bytes())
                    && old(self).inode_slots_ok()),
            },
    {
        let ino = match self.alloc_inode()? {
            Some(i) => i,
            None => return Ok(None),
        };
        let i = DINode::empty(mode, 1);
        let ghost d1 = self.disk();
        let ghost m1 = *self;
        if self.write_inode(ino, &i).is_err() {
            proof {
                assert(d1.len() == old(self).disk().len());
                assert(!m1.inode_ok(ino));
                assert(!old(self).inode_ok(ino));
            }
            return Err(IoError::OutOfRange);
        }
        proof {
            lemma_inode_roundtrip(d1, self.inode_off(ino), i@);
            assert(i@ == fresh_inode(mode, 1));
            let d0 = old(self).disk();
            let first = old(self).sb().first_data_zone as int;
            if in_range(d0, old(self).zmap_off(), old(self).zmap_bytes()) {
                let zs = old(self).zs();
                let ib = old(self).sb().imap_blocks as int;
                let zb = old(self).sb().zmap_blocks as int;
                assert(2 * zs + ib * zs == (2 + ib) * zs) by (nonlinear_arith);
                assert((2 + ib) * zs + zb * zs == (2 + ib + zb) * zs) by (nonlinear_arith);
                assert(old(self).imap_off() + old(self).imap_bytes() == old(self).zmap_off());
                assert(old(self).zmap_off() + old(self).zmap_bytes() == old(self).sb().spec_inode_start());
                assert(old(self).inode_off(ino) >= old(self).sb().spec_inode_start());
                assert(d1 == with_bit(d0, old(self).imap_off(), ino as int, true));
                lemma_bitmap_byte(ino as int, old(self).imap_bytes(), old(self).sb().ninodes + 1);
                assert forall|z: int| first <= z && z - first + 1 < old(self).zmap_cap()
                    implies #[trigger] self.zone_used(z) == old(self).zone_used(z) by {
                    let j = z - first + 1;
                    lemma_bitmap_byte(j, old(self).zmap_bytes(), old(self).sb().nzones - first + 1);
                    let pos = old(self).zmap_off() + j / 8;
                    assert(d1[pos] == d0[pos]);
                    assert(self.disk()[pos] == d1[pos]);
                }
            }
        }
        Ok(Some(ino))
    }

    /// Inode `ino`, its zone lists and the two bitmaps lie on the disk, so
    /// that the inode's blocks can be freed.
    pub open spec fn blocks_reachable(&self, ino: u16) -> bool {
        &&& self.inode_ok(ino)
        &&& self.data_zones_ok(self.inode(ino).zone)
        &&& self.ztab_ok(self.inode(ino).zone[8])
        &&& in_range(self.disk(), self.zmap_off(), self.zmap_bytes())
        &&& in_range(self.disk(), self.imap_off(), self.imap_bytes())
    }

    /// Returns every zone of inode `ino` (data zones and indirect tables)
    /// to the zone bitmap, clears the inode and frees its number.
    pub fn free_inode_blocks_at(&mut self, ino: u16) -> (r: Result<(), IoError>)
        requires
            old(self).wf(),
            ino >= 1,
        ensures
            final(self).wf(),
            final(self).sb() == old(self).sb(),
            final(self).disk().len() == old(self).disk().len(),
            old(self).blocks_reachable(ino) ==> r is Ok,
    {
        let d = self.read_inode(ino)?;
        let zones = self.data_zones(&d)?;
        let ghost reach = old(self).blocks_reachable(ino);
        let mut i: usize = 0;
        while i < zones.len()
            invariant
                self.wf(),
                self.sb() == old(self).sb(),
                self.disk().len() == old(self).disk().len(),
                reach ==> in_range(old(self).disk(), old(self).zmap_off(), old(self).zmap_bytes()),
            decreases zones@.len() - i,
        {
            self.free_zone(zones[i])?;
            i = i + 1;
        }
        if d.zone[7] != 0 {
            self.free_zone(d.zone[7])?;
        }
        if d.zone[8] != 0 {
            let t = self.zone_table(d.zone[8])?;
            let mut j: usize = 0;
            while j < t.len()
                invariant
                    self.wf(),
                    self.sb() == old(self).sb(),
                    self.disk().len() == old(self).disk().len(),
                    reach ==> in_range(old(self).disk(), old(self).zmap_off(), old(self).zmap_bytes()),
                decreases t@.len() - j,
            {
                self.free_zone(t[j])?;
                j = j + 1;
            }
            self.free_zone(d.zone[8])?;
        }
        let zero = DINode::empty(0, 0);
        self.write_inode(ino, &zero)?;
        self.free_inode(ino)
    }

    /// Adds an entry `(new_ino, name)` to directory `dir` in its first
    /// free slot, appending a zone when every slot is taken (the
    /// directory's zone list and size are updated); gives up silently when
    /// no zone can be allocated.
    pub fn add_dir_entry_at(&mut self, dir: u16, name: &[u8], new_ino: u16) -> (r: Result<(), IoError>)
        requires
            old(self).wf(),
            old(self).sb().first_data_zone <= old(self).sb().nzones,
            dir >= 1,
            name@.len() <= old(self).sb().spec_name_len(),
        ensures
            final(self).wf(),
            final(self).sb() == old(self).sb(),
    {
        let es = self.entry_size();
        let zs = self.zone_size();
        let spz = zs / es;
        let mut d = self.read_inode(dir)?;
        let mut zones = self.data_zones(&d)?;
        let limit: u128 = zones.len() as u128 + self.superblock.nzones as u128 + 1;
        let mut bi: u128 = 0;
        while bi < limit
            invariant
                self.wf(),
                self.sb() == old(self).sb(),
                self.sb().first_data_zone <= self.sb().nzones,
                es == self.es(),
                zs == self.zs(),
                spz == self.spz(),
                name@.len() + 2 <= es,
                d.zone@.len() == 9,
                bi <= zones@.len(),
                dir >= 1,
                zs <= 0x8000_0000_0000_0000,
            decreases limit - bi,
        {
            if bi >= zones.len() as u128 {
                match self.alloc_zone()? {
                    Some(z) => {
                        zones.push(z);
                        self.write_file_zones(&mut d, &zones)?;
                    },
                    None => return Ok(()),
                }
            }
            let zlen = zones.len();
            let zone = zones[bi as usize];
            let len = self.disk.len();
            let base = self.zone_offset(zone, 0)?;
            if zs > len as u64 || !self.disk.fits(base, zs as usize) {
                return Err(IoError::OutOfRange);
            }
            let mut si: u64 = 0;
            while si < spz
                invariant
                    self.wf(),
                    self.sb() == old(self).sb(),
                    self.sb().first_data_zone <= self.sb().nzones,
                    es == self.es(),
                    zs == self.zs(),
                    spz == self.spz(),
                    name@.len() + 2 <= es,
                    d.zone@.len() == 9,
                    len == self.disk().len(),
                    base == zone * self.zs(),
                    self.zone_ok(zone),
                    bi < zlen,
                    dir >= 1,
                    zs <= 0x8000_0000_0000_0000,
                decreases spz - si,
            {
                proof {
                    lemma_slot_fits(zs as int, es as int, si as int);
                }
                let o = base + si * es;
                let ino = self.disk.read_u16(o)?;
                if ino == 0 {
                    let slot = entry_slot(new_ino, name, es);
                    self.disk.write(o, slot.as_slice())?;
                    assert(bi * zs <= 0xffff_ffff_ffff_ffff * 0x8000_0000_0000_0000) by (nonlinear_arith)
                        requires bi <= 0xffff_ffff_ffff_ffff, zs <= 0x8000_0000_0000_0000;
                    let end: u128 = bi * zs as u128 + si as u128 * es as u128 + es as u128;
                    if (d.size as u128) < end {
                        d.size = end as u32;
                        self.write_inode(dir, &d)?;
                    }
                    return Ok(());
                }
                si = si + 1;
            }
            bi = bi + 1;
        }
        Ok(())
    }
}

/// Mode of a new regular file (`rw-r--r--`).
pub const MODE_REG: u16 = 0o100644;
/// Mode of a new directory (`rwxr-xr-x`).
pub const MODE_DIR: u16 = 0o40755;
/// Mode of a new symbolic link (`rwxrwxrwx`).
pub const MODE_LNK: u16 = 0o120777;

impl MinixFs {
    /// The name `name` is valid here.
    pub open spec fn name_ok(&self, name: &str) -> bool {
        valid_name_spec(name.spec_bytes(), self.sb().spec_name_len())
    }

    /// Directory `dir` has an entry named `name` (first match at
    /// `(zi, si)`) that refers to inode `ino`.
    pub open spec fn entry_of(&self, dir: u16, name: Seq<u8>, ino: u16) -> bool {
        &&& self.dir_ok(dir)
        &&& exists|zi: int, si: int| #[trigger] self.first_match(self.dir_zones(dir), name, zi, si)
            && ino == self.slot_ino(self.slot_off(self.dir_zones(dir)[zi], si))
    }

    /// Inode `ino` is a directory.
    pub open spec fn is_dir(&self, ino: u16) -> bool {
        self.inode(ino).mode / 4096 == FT_DIR
    }

    /// Creates an empty regular file `name` in directory `dir` and
    /// returns its inode number; `None` when the name is invalid or no
    /// inode is free.  When adding the entry fails, the inode is freed.
    pub fn create_file(&mut self, dir: u16, name: &str) -> (r: Result<Option<u16>, IoError>)
        requires
            old(self).wf(),
            old(self).sb().first_data_zone <= old(self).sb().nzones,
            dir >= 1,
        ensures
            final(self).wf(),
            final(self).sb() == old(self).sb(),
            !old(self).name_ok(name) || old(self).inodes_full()
                ==> r == Ok::<Option<u16>, IoError>(None) && final(self).disk() == old(self).disk(),
            match r {
                Ok(Some(ino)) => old(self).name_ok(name) && 1 <= ino && !old(self).inode_used(ino as int),
                Ok(None) => final(self).disk() == old(self).disk() && (!old(self).name_ok(name)
                    || forall|j: int| 1 <= j < old(self).imap_cap() ==> #[trigger] old(self).inode_used(j)),
                Err(e) => e == IoError::OutOfRange,
            },
    {
        if !self.valid_name(name) {
            return Ok(None);
        }
        let ino = match self.alloc_empty_inode(MODE_REG)? {
            Some(i) => i,
            None => return Ok(None),
        };
        if let Err(e) = self.add_dir_entry_at(dir, name.as_bytes(), ino) {
            let _ = self.free_inode(ino);
            return Err(e);
        }
        Ok(Some(ino))
    }

    /// Adds a hard link `name` in directory `dir` to inode `old_ino` and
    /// counts the link.  `false` when the name is invalid, the inode
    /// number is out of range, the inode is unused or at the link limit,
    /// or it is a directory.
    pub fn link(&mut self, old_ino: u16, dir: u16, name: &str) -> (r: Result<bool, IoError>)
        requires
            old(self).wf(),
            old(self).sb().first_data_zone <= old(self).sb().nzones,
            dir >= 1,
        ensures
            final(self).wf(),
            final(self).sb() == old(self).sb(),
            (!old(self).name_ok(name) || old_ino == 0 || old_ino > old(self).sb().ninodes)
                ==> r == Ok::<bool, IoError>(false) && final(self).disk() == old(self).disk(),
            match r {
                Ok(true) => old(self).name_ok(name) && 1 <= old_ino <= old(self).sb().ninodes
                    && old(self).inode_ok(old_ino) && 0 < old(self).inode(old_ino).nlinks < 255
                    && !old(self).is_dir(old_ino),
                Ok(false) => final(self).disk() == old(self).disk() && (!old(self).name_ok(name) || old_ino == 0
                    || old_ino > old(self).sb().ninodes || old(self).inode(old_ino).nlinks == 0
                    || old(self).inode(old_ino).nlinks == 255 || old(self).is_dir(old_ino)),
                Err(e) => e == IoError::OutOfRange,
            },
    {
        if !self.valid_name(name) || old_ino == 0 || old_ino > self.superblock.ninodes {
            return Ok(false);
        }
        let d = self.read_inode(old_ino)?;
        if d.nlinks == 0 || d.nlinks == 255 {
            return Ok(false);
        }
        if d.file_type() == FT_DIR {
            return Ok(false);
        }
        self.add_dir_entry_at(dir, name.as_bytes(), old_ino)?;
        let mut updated = d;
        updated.nlinks = updated.nlinks + 1;
        self.write_inode(old_ino, &updated)?;
        Ok(true)
    }

    /// Removes the entry `name` of directory `dir` and drops a link of its
    /// inode, releasing the inode and its zones at the last link.
    /// `false` when the name is invalid, there is no such entry, or it
    /// refers to a directory.
    pub fn unlink(&mut self, dir: u16, name: &str) -> (r: Result<bool, IoError>)
        requires
            old(self).wf(),
            dir >= 1,
        ensures
            final(self).wf(),
            final(self).sb() == old(self).sb(),
            !old(self).name_ok(name) ==> r == Ok::<bool, IoError>(false) && final(self).disk() == old(self).disk(),
            match r {
                Ok(true) => old(self).name_ok(name) && exists|ino: u16| #[trigger] old(self).entry_of(dir, name.spec_bytes(), ino)
                    && !old(self).is_dir(ino),
                Ok(false) => final(self).disk() == old(self).disk() && (!old(self).name_ok(name)
                    || (old(self).dir_ok(dir) && old(self).no_match(old(self).dir_zones(dir), name.spec_bytes()))
                    || exists|ino: u16| #[trigger] old(self).entry_of(dir, name.spec_bytes(), ino) && old(self).is_dir(ino)),
                Err(e) => e == IoError::OutOfRange,
            },
            old(self).name_ok(name) && old(self).dir_readable(dir) && (exists|ino: u16|
                #[trigger] old(self).entry_of(dir, name.spec_bytes(), ino) && !old(self).is_dir(ino) && old(self).inode_ok(ino)
                && old(self).inode(ino).nlinks > 1) ==> r == Ok::<bool, IoError>(true),
    {
        let ghost owed = old(self).name_ok(name) && old(self).dir_readable(dir) && (exists|ino: u16|
            #[trigger] old(self).entry_of(dir, name.spec_bytes(), ino) && !old(self).is_dir(ino) && old(self).inode_ok(ino)
            && old(self).inode(ino).nlinks > 1);
        if !self.valid_name(name) {
            return Ok(false);
        }
        let ghost zones = self.dir_zones(dir);
        proof {
            if owed {
                let ino = choose|ino: u16| #[trigger] old(self).entry_of(dir, name.spec_bytes(), ino) && !old(self).is_dir(ino)
                    && old(self).inode_ok(ino) && old(self).inode(ino).nlinks > 1;
                let (zi, si) = choose|zi: int, si: int| #[trigger] self.first_match(zones, name.spec_bytes(), zi, si)
                    && ino == self.slot_ino(self.slot_off(zones[zi], si));
                assert(self.slot_is(self.slot_off(zones[zi], si), name.spec_bytes()));
            }
        }
        let ino = match self.find_dir_entry_ino(dir, name.as_bytes())? {
            Some(i) => i,
            None => return Ok(false),
        };
        proof {
            assert(self.entry_of(dir, name.spec_bytes(), ino));
            assert(ino >= 1);
            if owed {
                let j = choose|j: u16| #[trigger] old(self).entry_of(dir, name.spec_bytes(), j) && !old(self).is_dir(j)
                    && old(self).inode_ok(j) && old(self).inode(j).nlinks > 1;
                let (zi, si) = choose|zi: int, si: int| #[trigger] self.first_match(zones, name.spec_bytes(), zi, si)
                    && j == self.slot_ino(self.slot_off(zones[zi], si));
                let (zj, sj) = choose|zj: int, sj: int| #[trigger] self.first_match(zones, name.spec_bytes(), zj, sj)
                    && ino == self.slot_ino(self.slot_off(zones[zj], sj));
                self.lemma_first_match_unique(zones, name.spec_bytes(), zi, si, zj, sj);
                assert(j == ino);
            }
        }
        let d = self.read_inode(ino)?;
        if d.file_type() == FT_DIR {
            return Ok(false);
        }
        proof {
            if owed {
                let (zi, si) = choose|zi: int, si: int| #[trigger] self.first_match(zones, name.spec_bytes(), zi, si)
                    && ino == self.slot_ino(self.slot_off(zones[zi], si));
                assert(self.slot_is(self.slot_off(zones[zi], si), name.spec_bytes()));
            }
        }
        if !self.remove_dir_entry(dir, name.as_bytes())? {
            return Ok(false);
        }
        let nlinks = if d.nlinks > 0 { d.nlinks - 1 } else { 0 };
        if nlinks == 0 {
            self.free_inode_blocks_at(ino)?;
        } else {
            let mut updated = d;
            updated.nlinks = nlinks;
            self.write_inode(ino, &updated)?;
        }
        Ok(true)
    }

    /// Creates a symbolic link `name` in directory `dir` whose contents
    /// are `target`; `None` when the name is invalid, the target empty,
    /// no inode is free or the target does not fit on the disk (the inode
    /// is then released).
    pub fn symlink(&mut self, dir: u16, name: &str, target: &str) -> (r: Result<Option<u16>, IoError>)
        requires
            old(self).wf(),
            old(self).sb().first_data_zone <= old(self).sb().nzones,
            dir >= 1,
        ensures
            final(self).wf(),
            final(self).sb() == old(self).sb(),
            (!old(self).name_ok(name) || target@.len() == 0 || old(self).inodes_full()) ==> r == Ok::<Option<u16>, IoError>(None)
                && final(self).disk() == old(self).disk(),
            match r {
                Ok(Some(ino)) => old(self).name_ok(name) && target@.len() > 0 && 1 <= ino
                    && !old(self).inode_used(ino as int),
                Ok(None) => true,
                Err(e) => e == IoError::OutOfRange,
            },
    {
        if !self.valid_name(name) || target.is_empty() {
            return Ok(None);
        }
        let ghost d0 = *self;
        let ino = match self.alloc_empty_inode(MODE_LNK)? {
            Some(i) => i,
            None => return Ok(None),
        };
        let inode = self.read_inode(ino)?;
        let mut file = File::new(self, Vec::new(), ino, inode, Vec::new());
        let bytes = target.as_bytes();
        let done = match file.write_at(self, bytes, 0) {
            Ok(n) => n,
            Err(e) => {
                let _ = self.free_inode_blocks_at(ino);
                return Err(e);
            },
        };
        if done != bytes.len() {
            let _ = self.free_inode_blocks_at(ino);
            return Ok(None);
        }
        if let Err(e) = self.add_dir_entry_at(dir, name.as_bytes(), ino) {
            let _ = self.free_inode_blocks_at(ino);
            return Err(e);
        }
        Ok(Some(ino))
    }
}

impl MinixFs {
    /// Creates an empty directory `name` in directory `dir` holding the
    /// entries `.` and `..`, and counts the new `..` link of `dir`;
    /// returns the new inode number.  `None` when the name is invalid or
    /// no inode or zone is free (the inode is then released).
    pub fn create_dir(&mut self, dir: u16, name: &str) -> (r: Result<Option<u16>, IoError>)
        requires
            old(self).wf(),
            old(self).sb().first_data_zone <= old(self).sb().nzones,
            dir >= 1,
        ensures
            final(self).wf(),
            final(self).sb() == old(self).sb(),
            !old(self).name_ok(name) || old(self).inodes_full()
                ==> r == Ok::<Option<u16>, IoError>(None) && final(self).disk() == old(self).disk(),
            match r {
                Ok(Some(ino)) => old(self).name_ok(name) && 1 <= ino && !old(self).inode_used(ino as int),
                Ok(None) => !old(self).name_ok(name)
                    || (forall|j: int| 1 <= j < old(self).imap_cap() ==> #[trigger] old(self).inode_used(j))
                    || (forall|z: int| old(self).sb().first_data_zone <= z
                        && z - old(self).sb().first_data_zone + 1 < old(self).zmap_cap() ==> #[trigger] old(self).zone_used(z)),
                Err(e) => e == IoError::OutOfRange,
            },
    {
        if !self.valid_name(name) {
            return Ok(None);
        }
        let ino = match self.alloc_empty_inode(MODE_DIR)? {
            Some(i) => i,
            None => return Ok(None),
        };
        let ghost m1 = *self;
        let zone = match self.alloc_zone()? {
            Some(z) => z,
            None => {
                proof {
                    let first = old(self).sb().first_data_zone as int;
                    assert forall|z: int| first <= z && z - first + 1 < old(self).zmap_cap()
                        implies #[trigger] old(self).zone_used(z) by {
                        assert(m1.zone_used(z));
                    }
                }
                let _ = self.free_inode(ino);
                return Ok(None);
            },
        };
        let es = self.entry_size();
        let zs = self.zone_size();
        let len = self.disk.len();
        if zs > len as u64 {
            return Err(IoError::OutOfRange);
        }
        let mut block: Vec<u8> = Vec::new();
        let mut k: u64 = 0;
        while k < zs
            invariant
                k <= zs,
                block@.len() == k,
            decreases zs - k,
        {
            block.push(0);
            k = k + 1;
        }
        let dot: Vec<u8> = vec![46u8];
        let dotdot: Vec<u8> = vec![46u8, 46u8];
        let e1 = entry_slot(ino, dot.as_slice(), es);
        let e2 = entry_slot(dir, dotdot.as_slice(), es);
        let mut j: usize = 0;
        while j < es as usize
            invariant
                j <= es,
                es <= 32,
                zs >= 1024,
                block@.len() == zs,
                e1@.len() == es,
                e2@.len() == es,
            decreases es - j,
        {
            block.set(j, e1[j]);
            block.set(es as usize + j, e2[j]);
            j = j + 1;
        }
        self.write_zone(zone, block.as_slice())?;
        let mut d = self.read_inode(ino)?;
        d.nlinks = 2;
        d.zone.set(0, zone);
        d.size = (2 * es) as u32;
        self.write_inode(ino, &d)?;
        if let Err(e) = self.add_dir_entry_at(dir, name.as_bytes(), ino) {
            let _ = self.free_zone(zone);
            let _ = self.free_inode(ino);
            return Err(e);
        }
        let mut parent = self.read_inode(dir)?;
        parent.nlinks = if parent.nlinks < 255 { parent.nlinks + 1 } else { 255 };
        self.write_inode(dir, &parent)?;
        Ok(Some(ino))
    }

    /// The slot at `o` is free or holds `.` or `..`.
    pub open spec fn slot_trivial(&self, o: int) -> bool {
        self.slot_ino(o) == 0 || self.slot_name(o) == seq![46u8] || self.slot_name(o) == seq![46u8, 46u8]
    }

    /// Every slot of the zones `zones` is free or holds `.` or `..`.
    pub open spec fn only_dots(&self, zones: Seq<u16>) -> bool {
        forall|zi: int, si: int| 0 <= zi < zones.len() && 0 <= si < self.spz()
            ==> #[trigger] self.slot_trivial(self.slot_off(zones[zi], si))
    }

    /// Whether the directory with inode `d` holds only `.` and `..`
    /// entries.
    fn dir_is_empty(&self, d: &DINode) -> (r: Result<bool, IoError>)
        requires
            self.wf(),
            d.zone@.len() == 9,
        ensures
            match r {
                Ok(b) => b == self.only_dots(self.data_zones_of(d.zone@)),
                Err(e) => e == IoError::OutOfRange && !(self.data_zones_ok(d.zone@)
                    && self.zones_ok(self.data_zones_of(d.zone@))),
            },
    {
        let zones = self.data_zones(d)?;
        let zs = self.zone_size();
        let es = self.entry_size();
        let spz = zs / es;
        let len = self.disk.len();
        let dot: Vec<u8> = vec![46u8];
        let dotdot: Vec<u8> = vec![46u8, 46u8];
        assert(dot@ =~= seq![46u8]);
        assert(dotdot@ =~= seq![46u8, 46u8]);
        let mut zi: usize = 0;
        while zi < zones.len()
            invariant
                self.wf(),
                zs == self.zs(),
                es == self.es(),
                spz == self.spz(),
                len == self.disk().len(),
                dot@ == seq![46u8],
                dotdot@ == seq![46u8, 46u8],
                zones@ == self.data_zones_of(d.zone@),
                forall|zj: int, sj: int| 0 <= zj < zi && 0 <= sj < self.spz()
                    ==> #[trigger] self.slot_trivial(self.slot_off(zones@[zj], sj)),
            decreases zones@.len() - zi,
        {
            let base = match self.zone_offset(zones[zi], 0) {
                Ok(b) => b,
                Err(e) => {
                    assert(!self.zone_ok(zones@[zi as int]));
                    return Err(e);
                },
            };
            if zs > len as u64 || !self.disk.fits(base, zs as usize) {
                assert(!self.zone_ok(zones@[zi as int]));
                return Err(IoError::OutOfRange);
            }
            let mut si: u64 = 0;
            while si < spz
                invariant
                    self.wf(),
                    zs == self.zs(),
                    es == self.es(),
                    spz == self.spz(),
                    len == self.disk().len(),
                    in_range(self.disk(), base as int, zs as int),
                    base == zones@[zi as int] * self.zs(),
                    zi < zones@.len(),
                    zones@ == self.data_zones_of(d.zone@),
                    dot@ == seq![46u8],
                    dotdot@ == seq![46u8, 46u8],
                    forall|sj: int| 0 <= sj < si ==> #[trigger] self.slot_trivial(self.slot_off(zones@[zi as int], sj)),
                decreases spz - si,
            {
                proof {
                    lemma_slot_fits(zs as int, es as int, si as int);
                }
                let o = base + si * es;
                let ino = self.disk.read_u16(o)?;
                if ino != 0 {
                    let a = self.slot_name_is(o, dot.as_slice())?;
                    let b = self.slot_name_is(o, dotdot.as_slice())?;
                    if !a && !b {
                        assert(!self.slot_trivial(self.slot_off(zones@[zi as int], si as int)));
                        assert(!self.only_dots(zones@)) by {
                            assert(0 <= zi < zones@.len() && 0 <= si < self.spz());
                        }
                        return Ok(false);
                    }
                }
                si = si + 1;
            }
            proof {
                assert forall|zj: int, sj: int| 0 <= zj < zi + 1 && 0 <= sj < self.spz()
                    implies #[trigger] self.slot_trivial(self.slot_off(zones@[zj], sj)) by {
                    if zj == zi {
                        assert(self.slot_trivial(self.slot_off(zones@[zi as int], sj)));
                    }
                }
            }
            zi = zi + 1;
        }
        Ok(true)
    }

    /// Removes the empty directory `name` of directory `dir` (one that
    /// holds only `.` and `..`), drops the `..` link of `dir` and
    /// releases the directory.  `false` when the name is invalid, there
    /// is no such entry, it is not a directory or it is not empty.
    #[verifier::spinoff_prover]
    pub fn remove_dir(&mut self, dir: u16, name: &str) -> (r: Result<bool, IoError>)
        requires
            old(self).wf(),
            dir >= 1,
        ensures
            final(self).wf(),
            final(self).sb() == old(self).sb(),
            remove_dir_post(*old(self), *final(self), dir, name.spec_bytes(), r),
    {
        if !self.valid_name(name) || dot_name(name.as_bytes()) {
            return Ok(false);
        }
        let ino = match self.find_dir_entry_ino(dir, name.as_bytes())? {
            Some(i) => i,
            None => return Ok(false),
        };
        proof {
            assert(self.entry_of(dir, name.spec_bytes(), ino));
        }
        let d = self.read_inode(ino)?;
        if d.file_type() != FT_DIR {
            return Ok(false);
        }
        if !self.dir_is_empty(&d)? {
            return Ok(false);
        }
        if !self.remove_dir_entry(dir, name.as_bytes())? {
            return Ok(false);
        }
        let mut parent = self.read_inode(dir)?;
        parent.nlinks = if parent.nlinks > 0 { parent.nlinks - 1 } else { 0 };
        self.write_inode(dir, &parent)?;
        self.free_inode_blocks_at(ino)?;
        Ok(true)
    }

    /// Removes `name` from directory `dir`: an empty directory through
    /// [`Self::remove_dir`], anything else through [`Self::unlink`].
    pub fn remove(&mut self, dir: u16, name: &str) -> (r: Result<bool, IoError>)
        requires
            old(self).wf(),
            dir >= 1,
        ensures
            final(self).wf(),
            final(self).sb() == old(self).sb(),
            match r {
                Ok(true) => old(self).name_ok(name) && exists|ino: u16| #[trigger] old(self).entry_of(dir, name.spec_bytes(), ino),
                Ok(false) => final(self).disk() == old(self).disk() && (!old(self).name_ok(name)
                    || (old(self).dir_ok(dir) && old(self).no_match(old(self).dir_zones(dir), name.spec_bytes()))
                    || exists|ino: u16| #[trigger] old(self).entry_of(dir, name.spec_bytes(), ino) && old(self).is_dir(ino)
                        && (is_dot_name(name.spec_bytes())
                            || !old(self).only_dots(old(self).data_zones_of(old(self).inode(ino).zone)))),
                Err(e) => e == IoError::OutOfRange,
            },
            old(self).dir_readable(dir) && old(self).no_match(old(self).dir_zones(dir), name.spec_bytes())
                ==> r == Ok::<bool, IoError>(false) && final(self).disk() == old(self).disk(),
    {
        let ino = match self.find_dir_entry_ino(dir, name.as_bytes())? {
            Some(i) => i,
            None => return Ok(false),
        };
        proof {
            assert(self.entry_of(dir, name.spec_bytes(), ino));
        }
        let d = self.read_inode(ino)?;
        if d.file_type() == FT_DIR {
            self.remove_dir(dir, name)
        } else {
            self.unlink(dir, name)
        }
    }
}

/// `name` is `.` or `..`, which name a directory itself or its parent,
/// never a subdirectory.
pub open spec fn is_dot_name(name: Seq<u8>) -> bool {
    name == seq![46u8] || name == seq![46u8, 46u8]
}

/// What `remove_dir(dir, name)` does to the file system `s0`, giving `s1`
/// and `r`: nothing but `Ok(false)` for an invalid or dot name; `Ok(true)`
/// only when `name` is an entry of `dir` for a directory holding nothing
/// but `.` and `..`; `Ok(false)` with nothing changed when there is no
/// such entry, it is no directory or the directory is not empty.
pub open spec fn remove_dir_post(s0: MinixFs, s1: MinixFs, dir: u16, name: Seq<u8>, r: Result<bool, IoError>) -> bool {
    let ok_name = valid_name_spec(name, s0.sb().spec_name_len());
    &&& !ok_name || is_dot_name(name) ==> r == Ok::<bool, IoError>(false) && s1.disk() == s0.disk()
    &&& match r {
        Ok(true) => ok_name && !is_dot_name(name)
            && exists|ino: u16| #[trigger] s0.entry_of(dir, name, ino) && s0.is_dir(ino)
                && s0.only_dots(s0.data_zones_of(s0.inode(ino).zone)),
        Ok(false) => s1.disk() == s0.disk() && (!ok_name || is_dot_name(name)
            || (s0.dir_ok(dir) && s0.no_match(s0.dir_zones(dir), name))
            || exists|ino: u16| #[trigger] s0.entry_of(dir, name, ino)
                && (!s0.is_dir(ino) || !s0.only_dots(s0.data_zones_of(s0.inode(ino).zone)))),
        Err(e) => e == IoError::OutOfRange,
    }
}

/// `remove_dir` never removes a directory that still holds an entry
/// other than `.` and `..`: when the entry `name` of `dir` refers to such
/// a directory, the call does not answer `Ok(true)`.
pub proof fn lemma_remove_dir_keeps_nonempty(s0: MinixFs, s1: MinixFs, dir: u16, name: Seq<u8>, r: Result<bool, IoError>,
    ino: u16, zi: int, si: int)
    requires
        remove_dir_post(s0, s1, dir, name, r),
        s0.entry_of(dir, name, ino),
        0 <= zi < s0.data_zones_of(s0.inode(ino).zone).len(),
        0 <= si < s0.spz(),
        s0.slot_ino(s0.slot_off(s0.data_zones_of(s0.inode(ino).zone)[zi], si)) != 0,
        !is_dot_name(s0.slot_name(s0.slot_off(s0.data_zones_of(s0.inode(ino).zone)[zi], si))),
    ensures
        r != Ok::<bool, IoError>(true),
{
    if r == Ok::<bool, IoError>(true) {
        let i2 = choose|i2: u16| #[trigger] s0.entry_of(dir, name, i2) && s0.is_dir(i2)
            && s0.only_dots(s0.data_zones_of(s0.inode(i2).zone));
        let zs = s0.dir_zones(dir);
        let (za, sa) = choose|za: int, sa: int| #[trigger] s0.first_match(zs, name, za, sa)
            && ino == s0.slot_ino(s0.slot_off(zs[za], sa));
        let (zb, sb) = choose|zb: int, sb: int| #[trigger] s0.first_match(zs, name, zb, sb)
            && i2 == s0.slot_ino(s0.slot_off(zs[zb], sb));
        s0.lemma_first_match_unique(zs, name, za, sa, zb, sb);
        assert(i2 == ino);
        let z = s0.data_zones_of(s0.inode(ino).zone);
        assert(s0.slot_trivial(s0.slot_off(z[zi], si)));
    }
}

/// Whether `name` is `.` or `..`.
fn dot_name(name: &[u8]) -> (r: bool)
    ensures
        r == is_dot_name(name@),
{
    if name.len() == 1 {
        let r = name[0] == 46;
        proof {
            if r { assert(name@ =~= seq![46u8]); }
        }
        r
    } else if name.len() == 2 {
        let r = name[0] == 46 && name[1] == 46;
        proof {
            if r { assert(name@ =~= seq![46u8, 46u8]); }
        }
        r
    } else {
        false
    }
}

/// Symbolic links followed while resolving one path.
pub const MAX_SYMLINK_HOPS: u64 = 40;

/// The ASCII bytes of `s` before its first NUL (other bytes dropped).
pub open spec fn ascii_text(s: Seq<u8>) -> Seq<u8>
    decreases s.len(),
{
    if s.len() == 0 || s[0] == 0 {
        Seq::empty()
    } else if s[0] < 128 {
        seq![s[0]] + ascii_text(s.drop_first())
    } else {
        ascii_text(s.drop_first())
    }
}

/// A NUL-padded name field of a directory entry.
pub struct MinixString {
    /// The raw name field.
    pub bytes: Vec<u8>,
}

impl MinixString {
    /// The name: ASCII bytes before the first NUL.
    pub fn text(&self) -> (r: Vec<u8>)
        ensures
            r@ == ascii_text(self.bytes@),
    {
        let mut out: Vec<u8> = Vec::new();
        let mut i: usize = 0;
        assert(self.bytes@.subrange(0, self.bytes@.len() as int) =~= self.bytes@);
        while i < self.bytes.len() && self.bytes[i] != 0
            invariant
                i <= self.bytes@.len(),
                ascii_text(self.bytes@) == out@ + ascii_text(self.bytes@.subrange(i as int, self.bytes@.len() as int)),
            decreases self.bytes@.len() - i,
        {
            let ghost rest = self.bytes@.subrange(i as int, self.bytes@.len() as int);
            assert(rest.drop_first() =~= self.bytes@.subrange(i + 1, self.bytes@.len() as int));
            if self.bytes[i] < 128 {
                out.push(self.bytes[i]);
                assert(ascii_text(self.bytes@) =~= out@ + ascii_text(self.bytes@.subrange(i + 1, self.bytes@.len() as int)));
            }
            i = i + 1;
        }
        assert(ascii_text(self.bytes@.subrange(i as int, self.bytes@.len() as int)) =~= Seq::<u8>::empty());
        out
    }
}

/// A copy of `v`.
pub fn copy_bytes(v: &Vec<u8>) -> (r: Vec<u8>)
    ensures
        r@ == v@,
{
    let mut r: Vec<u8> = Vec::new();
    let mut i: usize = 0;
    while i < v.len()
        invariant
            i <= v@.len(),
            r@ == v@.subrange(0, i as int),
        decreases v@.len() - i,
    {
        r.push(v[i]);
        i = i + 1;
        assert(r@ =~= v@.subrange(0, i as int));
    }
    assert(r@ =~= v@);
    r
}

/// A directory entry as stored on disk.
pub struct DirEntryRaw {
    /// Inode number (0 for a free slot).
    pub ino: u16,
    /// The name field.
    pub name: MinixString,
}

/// A directory entry: inode number and name bytes.
#[derive(Clone, Debug)]
pub struct DirEntry {
    /// Inode number.
    pub ino: u16,
    /// Name (ASCII bytes).
    pub name: Vec<u8>,
}

/// The entries held by the first `n` slots of directory contents `c`
/// (slots of `es` bytes; free slots and empty names skipped).
pub open spec fn dir_list(c: Seq<u8>, es: int, n: int) -> Seq<(u16, Seq<u8>)>
    decreases n,
{
    if n <= 0 {
        Seq::empty()
    } else {
        let prev = dir_list(c, es, n - 1);
        let o = (n - 1) * es;
        let ino = u16_at(c, o);
        let name = ascii_text(c.subrange(o + 2, o + es));
        if ino != 0 && name.len() > 0 { prev.push((ino, name)) } else { prev }
    }
}

/// The entries of a directory, in slot order.
pub struct DirEntries {
    entries: Vec<DirEntry>,
    next: usize,
}

impl DirEntries {
    /// The entries not yet returned.
    pub closed spec fn rest(&self) -> Seq<(u16, Seq<u8>)> {
        if self.next <= self.entries@.len() {
            self.entries@.subrange(self.next as int, self.entries@.len() as int).map_values(|e: DirEntry| (e.ino, e.name@))
        } else {
            Seq::empty()
        }
    }

    /// The next entry, if any.
    pub fn next(&mut self) -> (r: Option<DirEntry>)
        ensures
            old(self).rest().len() == 0 ==> r is None && final(self).rest() == old(self).rest(),
            old(self).rest().len() > 0 ==> (r matches Some(e) && (e.ino, e.name@) == old(self).rest()[0]
                && final(self).rest() == old(self).rest().drop_first()),
    {
        if self.next < self.entries.len() {
            let src = &self.entries[self.next];
            let e = DirEntry { ino: src.ino, name: copy_bytes(&src.name) };
            let ghost before = self.rest();
            proof {
                assert(before[0] == (src.ino, src.name@));
            }
            self.next = self.next + 1;
            proof {
                assert(self.rest() =~= before.drop_first());
            }
            Some(e)
        } else {
            None
        }
    }
}

/// Entries as pairs of inode number and name.
pub open spec fn entries_view(v: Seq<DirEntry>) -> Seq<(u16, Seq<u8>)> {
    v.map_values(|e: DirEntry| (e.ino, e.name@))
}

impl MinixFs {
    /// The contents of the file with inode value `i`.
    pub open spec fn contents_of(&self, i: InodeV) -> Seq<u8> {
        if i.size == 0 { Seq::empty() } else { self.content(i.zone, i.size) }
    }

    /// The entries of the directory with inode `inode`: its contents cut
    /// into entry slots, free slots and empty names skipped.
    pub fn dir_entries(&self, inode: &DINode) -> (r: Result<Vec<DirEntry>, IoError>)
        requires
            self.wf(),
            inode.zone@.len() == 9,
        ensures
            match r {
                Ok(v) => self.content_ok(inode.zone@, inode.size) && entries_view(v@) == dir_list(
                    self.contents_of(inode@),
                    self.es(),
                    self.contents_of(inode@).len() as int / self.es(),
                ),
                Err(e) => e == IoError::OutOfRange && !self.content_ok(inode.zone@, inode.size),
            },
    {
        let c = self.data(inode)?;
        let es = self.entry_size() as usize;
        let n = c.len() / es;
        let mut out: Vec<DirEntry> = Vec::new();
        let mut k: usize = 0;
        while k < n
            invariant
                k <= n,
                n == c@.len() as int / (es as int),
                es == self.es(),
                es == 16 || es == 32,
                c@ == self.contents_of(inode@),
                entries_view(out@) == dir_list(c@, es as int, k as int),
            decreases n - k,
        {
            assert(k * es + es <= c@.len()) by (nonlinear_arith)
                requires k < n, n == c@.len() as int / (es as int), es > 0;
            let cl = c.len();
            let o = k * es;
            let end = o + es;
            let ino = c[o] as u16 + (c[o + 1] as u16) * 256;
            let mut field: Vec<u8> = Vec::new();
            let mut j: usize = o + 2;
            while j < end
                invariant
                    o + 2 <= j <= end,
                    end == o + es,
                    end <= c@.len(),
                    field@ == c@.subrange(o + 2, j as int),
                decreases end - j,
            {
                field.push(c[j]);
                j = j + 1;
                assert(field@ =~= c@.subrange(o + 2, j as int));
            }
            let name = MinixString { bytes: field }.text();
            let ghost before = out@;
            if ino != 0 && name.len() > 0 {
                out.push(DirEntry { ino, name });
                assert(entries_view(out@) =~= entries_view(before).push((ino, name@)));
            }
            k = k + 1;
        }
        Ok(out)
    }

    /// The entries of the directory with inode `inode`, one at a time.
    pub fn dir_entries_iter(&self, inode: &DINode) -> (r: Result<DirEntries, IoError>)
        requires
            self.wf(),
            inode.zone@.len() == 9,
        ensures
            match r {
                Ok(it) => self.content_ok(inode.zone@, inode.size) && it.rest() == dir_list(
                    self.contents_of(inode@),
                    self.es(),
                    self.contents_of(inode@).len() as int / self.es(),
                ),
                Err(e) => e == IoError::OutOfRange && !self.content_ok(inode.zone@, inode.size),
            },
    {
        let entries = self.dir_entries(inode)?;
        let it = DirEntries { entries, next: 0 };
        assert(it.entries@.subrange(0, it.entries@.len() as int) =~= it.entries@);
        Ok(it)
    }
}

/// A path component: not empty, no `/`.
pub open spec fn is_component(c: Seq<u8>) -> bool {
    c.len() > 0 && forall|k: int| 0 <= k < c.len() ==> #[trigger] c[k] != 0x2f
}

/// The components of `p`, split at `/`, empty ones dropped.
pub open spec fn components_of(p: Seq<u8>) -> Seq<Seq<u8>>
    decreases p.len(),
{
    if p.len() == 0 {
        Seq::empty()
    } else {
        let rest = components_of(p.drop_last());
        let last = p.last();
        if last == 0x2f {
            rest
        } else if rest.len() > 0 && p.len() >= 2 && p[p.len() - 2] != 0x2f {
            rest.update(rest.len() - 1, rest.last().push(last))
        } else {
            rest.push(seq![last])
        }
    }
}

/// The byte strings of `v`.
pub open spec fn byte_strings(v: Seq<Vec<u8>>) -> Seq<Seq<u8>> {
    v.map_values(|x: Vec<u8>| x@)
}

/// The components found so far, `out`, and the one being read, `cur`.
pub open spec fn split_state(out: Seq<Vec<u8>>, cur: Seq<u8>) -> Seq<Seq<u8>> {
    if cur.len() > 0 { byte_strings(out).push(cur) } else { byte_strings(out) }
}

/// Splits `p` at `/` into its non-empty components.
fn split_components(p: &[u8]) -> (r: Vec<Vec<u8>>)
    ensures
        byte_strings(r@) == components_of(p@),
        forall|i: int| 0 <= i < r@.len() ==> #[trigger] is_component(r@[i]@),
{
    let mut out: Vec<Vec<u8>> = Vec::new();
    let mut cur: Vec<u8> = Vec::new();
    let mut i: usize = 0;
    proof {
        assert(p@.take(0) =~= Seq::<u8>::empty());
        assert(byte_strings(out@) =~= Seq::<Seq<u8>>::empty());
    }
    while i < p.len()
        invariant
            i <= p@.len(),
            forall|k: int| 0 <= k < cur@.len() ==> #[trigger] cur@[k] != 0x2f,
            forall|j: int| 0 <= j < out@.len() ==> #[trigger] is_component(out@[j]@),
            split_state(out@, cur@) == components_of(p@.take(i as int)),
            cur@.len() > 0 <==> (i > 0 && p@[i - 1] != 0x2f),
        decreases p@.len() - i,
    {
        let ghost t = p@.take(i + 1);
        proof {
            assert(t.drop_last() =~= p@.take(i as int));
            assert(t.last() == p@[i as int]);
            assert(t.len() >= 2 ==> t[t.len() - 2] == p@[i - 1]);
        }
        if p[i] == 0x2f {
            if cur.len() > 0 {
                let ghost o0 = out@;
                let ghost c0 = cur@;
                out.push(cur);
                cur = Vec::new();
                proof {
                    assert(byte_strings(out@) =~= byte_strings(o0).push(c0));
                }
            }
        } else {
            let ghost c0 = cur@;
            cur.push(p[i]);
            proof {
                let rest = components_of(p@.take(i as int));
                if c0.len() > 0 {
                    assert(rest == byte_strings(out@).push(c0));
                    assert(byte_strings(out@).push(cur@) =~= rest.update(rest.len() - 1, rest.last().push(p@[i as int])));
                } else {
                    assert(cur@ =~= seq![p@[i as int]]);
                }
            }
        }
        i = i + 1;
    }
    let ghost o1 = out@;
    let ghost c1 = cur@;
    if cur.len() > 0 {
        out.push(cur);
        proof {
            assert(byte_strings(out@) =~= byte_strings(o1).push(c1));
        }
    }
    proof {
        assert(p@.take(p@.len() as int) =~= p@);
    }
    out
}

proof fn lemma_dir_list_ino(c: Seq<u8>, es: int, n: int)
    ensures
        forall|i: int| 0 <= i < dir_list(c, es, n).len() ==> (#[trigger] dir_list(c, es, n)[i]).0 != 0,
    decreases n,
{
    if n > 0 {
        lemma_dir_list_ino(c, es, n - 1);
        let prev = dir_list(c, es, n - 1);
        assert forall|i: int| 0 <= i < dir_list(c, es, n).len() implies (#[trigger] dir_list(c, es, n)[i]).0 != 0 by {
            if i < prev.len() {
                assert(dir_list(c, es, n)[i] == prev[i]);
            }
        }
    }
}

/// The inode number of the first of `entries` named `name`; 0 when none
/// is.
pub open spec fn first_named(entries: Seq<(u16, Seq<u8>)>, name: Seq<u8>) -> u16
    decreases entries.len(),
{
    if entries.len() == 0 {
        0
    } else if entries[0].1 == name {
        entries[0].0
    } else {
        first_named(entries.drop_first(), name)
    }
}

/// Byte-wise equality.
fn bytes_eq(a: &Vec<u8>, b: &Vec<u8>) -> (r: bool)
    ensures
        r == (a@ == b@),
{
    if a.len() != b.len() {
        return false;
    }
    let mut i: usize = 0;
    while i < a.len()
        invariant
            i <= a@.len() == b@.len(),
            forall|k: int| 0 <= k < i ==> a@[k] == b@[k],
        decreases a@.len() - i,
    {
        if a[i] != b[i] {
            return false;
        }
        i = i + 1;
    }
    assert(a@ =~= b@);
    true
}

impl MinixFs {
    /// `f` is a file of this file system opened on inode `f.ino` as it
    /// is now on disk: its zone list expanded, at position 0.
    pub open spec fn opened(&self, f: &File) -> bool {
        &&& f.on(self)
        &&& self.inode_ok(f.spec_ino())
        &&& f.spec_inode() == self.inode(f.spec_ino())
        &&& f.spec_zones() == self.data_zones_of(f.spec_inode().zone)
        &&& f.spec_offset() == 0
    }

    /// The entries of the directory with inode value `dir`.
    pub open spec fn entries_of(&self, dir: InodeV) -> Seq<(u16, Seq<u8>)> {
        dir_list(self.contents_of(dir), self.es(), self.contents_of(dir).len() as int / self.es())
    }

    /// The outcome of resolving the components `comps` from directory
    /// `dir_ino`, `hops` symbolic links having been followed: the inode
    /// reached, `None` when a component is missing, a non-final component
    /// is not a directory or too many links were followed, or an error
    /// when a structure that must be read lies off the disk.
    pub open spec fn resolve(&self, comps: Seq<Seq<u8>>, dir_ino: u16, hops: int) -> Result<Option<u16>, IoError>
        decreases (if hops <= MAX_SYMLINK_HOPS { MAX_SYMLINK_HOPS - hops } else { 0 }), comps.len(),
    {
        let dir = self.inode(dir_ino);
        if comps.len() == 0 {
            if self.data_zones_ok(dir.zone) { Ok(Some(dir_ino)) } else { Err(IoError::OutOfRange) }
        } else if !self.content_ok(dir.zone, dir.size) {
            Err(IoError::OutOfRange)
        } else {
            let rest = comps.drop_first();
            let next_ino = first_named(self.entries_of(dir), comps[0]);
            if next_ino == 0 {
                Ok(None)
            } else if !self.inode_ok(next_ino) {
                Err(IoError::OutOfRange)
            } else {
                let next = self.inode(next_ino);
                if next.mode / 4096 == FT_LNK {
                    if hops >= MAX_SYMLINK_HOPS {
                        Ok(None)
                    } else if !self.content_ok(next.zone, next.size) {
                        Err(IoError::OutOfRange)
                    } else {
                        let target = self.contents_of(next);
                        let absolute = target.len() > 0 && target[0] == 0x2f;
                        if absolute && !self.inode_ok(ROOT_INO) {
                            Err(IoError::OutOfRange)
                        } else {
                            self.resolve(components_of(target) + rest, if absolute { ROOT_INO } else { dir_ino }, hops + 1)
                        }
                    }
                } else if rest.len() > 0 && next.mode / 4096 != FT_DIR {
                    Ok(None)
                } else {
                    self.resolve(rest, next_ino, hops)
                }
            }
        }
    }

    /// A symbolic link whose target does not start with `/`, met in
    /// directory `d`, is followed from `d` itself: resolving the link's
    /// name and then `rest` from `d` gives what resolving the target's
    /// components and then `rest` from `d` gives, whatever the root holds.
    pub proof fn lemma_relative_link(&self, d: u16, link: Seq<u8>, rest: Seq<Seq<u8>>, hops: int)
        requires
            self.content_ok(self.inode(d).zone, self.inode(d).size),
            first_named(self.entries_of(self.inode(d)), link) != 0,
            self.inode_ok(first_named(self.entries_of(self.inode(d)), link)),
            self.inode(first_named(self.entries_of(self.inode(d)), link)).mode / 4096 == FT_LNK,
            0 <= hops < MAX_SYMLINK_HOPS,
            self.content_ok(self.inode(first_named(self.entries_of(self.inode(d)), link)).zone,
                self.inode(first_named(self.entries_of(self.inode(d)), link)).size),
            ({
                let target = self.contents_of(self.inode(first_named(self.entries_of(self.inode(d)), link)));
                !(target.len() > 0 && target[0] == 0x2f)
            }),
        ensures
            self.resolve(seq![link] + rest, d, hops) == self.resolve(
                components_of(self.contents_of(self.inode(first_named(self.entries_of(self.inode(d)), link)))) + rest,
                d, hops + 1),
    {
        let comps = seq![link] + rest;
        assert(comps[0] == link);
        assert(comps.drop_first() =~= rest);
    }

    /// A symbolic link whose target starts with `/` restarts at the root:
    /// resolving the link's name and then `rest` from `d` gives what
    /// resolving the target's components and then `rest` from the root
    /// gives.
    pub proof fn lemma_absolute_link(&self, d: u16, link: Seq<u8>, rest: Seq<Seq<u8>>, hops: int)
        requires
            self.content_ok(self.inode(d).zone, self.inode(d).size),
            first_named(self.entries_of(self.inode(d)), link) != 0,
            self.inode_ok(first_named(self.entries_of(self.inode(d)), link)),
            self.inode(first_named(self.entries_of(self.inode(d)), link)).mode / 4096 == FT_LNK,
            0 <= hops < MAX_SYMLINK_HOPS,
            self.content_ok(self.inode(first_named(self.entries_of(self.inode(d)), link)).zone,
                self.inode(first_named(self.entries_of(self.inode(d)), link)).size),
            self.inode_ok(ROOT_INO),
            ({
                let target = self.contents_of(self.inode(first_named(self.entries_of(self.inode(d)), link)));
                target.len() > 0 && target[0] == 0x2f
            }),
        ensures
            self.resolve(seq![link] + rest, d, hops) == self.resolve(
                components_of(self.contents_of(self.inode(first_named(self.entries_of(self.inode(d)), link)))) + rest,
                ROOT_INO, hops + 1),
    {
        let comps = seq![link] + rest;
        assert(comps[0] == link);
        assert(comps.drop_first() =~= rest);
    }

    /// An entry that is no link is entered: resolving its name and then a
    /// non-empty `rest` from `d` continues with `rest` from the entry when
    /// it is a directory, and finds nothing when it is not.
    pub proof fn lemma_descend(&self, d: u16, name: Seq<u8>, rest: Seq<Seq<u8>>, hops: int)
        requires
            self.content_ok(self.inode(d).zone, self.inode(d).size),
            first_named(self.entries_of(self.inode(d)), name) != 0,
            self.inode_ok(first_named(self.entries_of(self.inode(d)), name)),
            self.inode(first_named(self.entries_of(self.inode(d)), name)).mode / 4096 != FT_LNK,
            rest.len() > 0,
        ensures
            self.resolve(seq![name] + rest, d, hops) == if self.is_dir(first_named(self.entries_of(self.inode(d)), name)) {
                self.resolve(rest, first_named(self.entries_of(self.inode(d)), name), hops)
            } else {
                Ok::<Option<u16>, IoError>(None)
            },
    {
        let comps = seq![name] + rest;
        assert(comps[0] == name);
        assert(comps.drop_first() =~= rest);
    }

    /// Following a link `d/link -> name` that names an entry of `d`
    /// itself reaches that entry: when `name` is a file or directory of
    /// `d`, resolving `link` from `d` gives its inode.
    pub proof fn lemma_relative_link_reaches_sibling(&self, d: u16, link: Seq<u8>, name: Seq<u8>, hops: int)
        requires
            self.content_ok(self.inode(d).zone, self.inode(d).size),
            first_named(self.entries_of(self.inode(d)), link) != 0,
            self.inode_ok(first_named(self.entries_of(self.inode(d)), link)),
            self.inode(first_named(self.entries_of(self.inode(d)), link)).mode / 4096 == FT_LNK,
            0 <= hops < MAX_SYMLINK_HOPS,
            self.content_ok(self.inode(first_named(self.entries_of(self.inode(d)), link)).zone,
                self.inode(first_named(self.entries_of(self.inode(d)), link)).size),
            ({
                let target = self.contents_of(self.inode(first_named(self.entries_of(self.inode(d)), link)));
                !(target.len() > 0 && target[0] == 0x2f) && components_of(target) == seq![name]
            }),
            first_named(self.entries_of(self.inode(d)), name) != 0,
            self.inode_ok(first_named(self.entries_of(self.inode(d)), name)),
            self.inode(first_named(self.entries_of(self.inode(d)), name)).mode / 4096 != FT_LNK,
            self.data_zones_ok(self.inode(first_named(self.entries_of(self.inode(d)), name)).zone),
        ensures
            self.resolve(seq![link], d, hops) == Ok::<Option<u16>, IoError>(Some(first_named(self.entries_of(self.inode(d)), name))),
    {
        self.lemma_relative_link(d, link, Seq::empty(), hops);
        assert(seq![link] + Seq::<Seq<u8>>::empty() =~= seq![link]);
        let t = seq![name] + Seq::<Seq<u8>>::empty();
        assert(t =~= seq![name]);
        assert(t[0] == name);
        assert(t.drop_first() =~= Seq::<Seq<u8>>::empty());
        let f = first_named(self.entries_of(self.inode(d)), name);
        assert(self.resolve(Seq::<Seq<u8>>::empty(), f, hops + 1) == Ok::<Option<u16>, IoError>(Some(f)));
    }

    /// The outcome of resolving `path` from the root directory, `hops`
    /// symbolic links having been followed.
    pub open spec fn resolution(&self, path: Seq<u8>, hops: int) -> Result<Option<u16>, IoError> {
        if !self.inode_ok(ROOT_INO) {
            Err(IoError::OutOfRange)
        } else {
            self.resolve(components_of(path), ROOT_INO, hops)
        }
    }

    /// Resolves `path` from the root directory, following symbolic links
    /// (an absolute target restarts at the root, a relative one continues
    /// in the current directory; more than [`MAX_SYMLINK_HOPS`] links give
    /// up).  `None` when a component is missing or a non-final component
    /// is not a directory.
    fn resolve_path(&self, path: &[u8], hops: u64) -> (r: Result<Option<File>, IoError>)
        requires
            self.wf(),
            hops <= MAX_SYMLINK_HOPS,
        ensures
            match r {
                Ok(Some(f)) => self.opened(&f) && f.spec_path() == path@,
                Ok(None) => true,
                Err(e) => e == IoError::OutOfRange,
            },
            match self.resolution(path@, hops as int) {
                Ok(Some(i)) => r matches Ok(Some(f)) && f.spec_ino() == i,
                Ok(None) => r matches Ok(None),
                Err(_) => r is Err,
            },
    {
        let mut comps = split_components(path);
        let ghost goal = self.resolution(path@, hops as int);
        let mut followed = hops;
        let mut dir_ino: u16 = ROOT_INO;
        let mut dir = self.read_inode(ROOT_INO)?;
        let es = self.entry_size();
        while comps.len() > 0
            invariant
                self.wf(),
                followed <= MAX_SYMLINK_HOPS,
                dir_ino >= 1,
                self.inode_ok(dir_ino),
                dir@ == self.inode(dir_ino),
                dir.zone@.len() == 9,
                self.resolve(byte_strings(comps@), dir_ino, followed as int) == goal,
                goal == self.resolution(path@, hops as int),
            decreases MAX_SYMLINK_HOPS - followed, comps@.len(),
        {
            let ghost before = byte_strings(comps@);
            let name = comps.remove(0);
            proof {
                assert(byte_strings(comps@) =~= before.drop_first());
                assert(before[0] == name@);
                if !self.content_ok(dir.zone@, dir.size) {
                    assert(self.resolve(before, dir_ino, followed as int) == Err::<Option<u16>, IoError>(IoError::OutOfRange));
                }
            }
            let entries = self.dir_entries(&dir)?;
            let ghost ev = entries_view(entries@);
            proof {
                let c = self.contents_of(dir@);
                lemma_dir_list_ino(c, self.es(), c.len() as int / self.es());
                assert forall|i: int| 0 <= i < entries@.len() implies (#[trigger] entries@[i]).ino != 0 by {
                    assert(entries_view(entries@)[i].0 == entries@[i].ino);
                }
                assert(ev == self.entries_of(dir@));
                assert(ev.subrange(0, ev.len() as int) =~= ev);
            }
            let mut next_ino: u16 = 0;
            let mut k: usize = 0;
            while k < entries.len()
                invariant_except_break
                    next_ino == 0,
                invariant
                    k <= entries@.len(),
                    ev == entries_view(entries@),
                    forall|i: int| 0 <= i < entries@.len() ==> (#[trigger] entries@[i]).ino != 0,
                    first_named(ev, name@) == first_named(ev.subrange(k as int, ev.len() as int), name@),
                ensures
                    first_named(ev, name@) == next_ino,
                decreases entries@.len() - k,
            {
                proof {
                    assert(ev.subrange(k as int, ev.len() as int)[0] == ev[k as int]);
                    assert(ev[k as int] == (entries@[k as int].ino, entries@[k as int].name@));
                }
                if bytes_eq(&entries[k].name, &name) {
                    next_ino = entries[k].ino;
                    break;
                }
                proof {
                    assert(ev.subrange(k as int, ev.len() as int).drop_first() =~= ev.subrange(k + 1, ev.len() as int));
                }
                k = k + 1;
            }
            if next_ino == 0 {
                return Ok(None);
            }
            proof {
                if !self.inode_ok(next_ino) {
                    assert(self.resolve(before, dir_ino, followed as int) == Err::<Option<u16>, IoError>(IoError::OutOfRange));
                }
            }
            let next = self.read_inode(next_ino)?;
            if next.file_type() == FT_LNK {
                if followed >= MAX_SYMLINK_HOPS {
                    return Ok(None);
                }
                followed = followed + 1;
                let target = self.data(&next)?;
                proof {
                    if next.size == 0 {
                        assert(target@ =~= self.contents_of(next@));
                    }
                }
                if target.len() > 0 && target[0] == 0x2f {
                    dir_ino = ROOT_INO;
                    dir = self.read_inode(ROOT_INO)?;
                }
                let parts = split_components(target.as_slice());
                let ghost rest = byte_strings(comps@);
                let ghost pv = byte_strings(parts@);
                proof {
                    assert(pv.subrange(pv.len() as int, pv.len() as int) + rest =~= rest);
                }
                let mut j = parts.len();
                while j > 0
                    invariant
                        j <= parts@.len(),
                        pv == byte_strings(parts@),
                        byte_strings(comps@) == pv.subrange(j as int, pv.len() as int) + rest,
                    decreases j,
                {
                    j = j - 1;
                    let ghost c0 = byte_strings(comps@);
                    comps.insert(0, copy_bytes(&parts[j]));
                    proof {
                        assert(byte_strings(comps@) =~= seq![pv[j as int]] + c0);
                        assert(pv.subrange(j as int, pv.len() as int) + rest
                            =~= seq![pv[j as int]] + (pv.subrange(j + 1, pv.len() as int) + rest));
                    }
                }
                proof {
                    assert(pv.subrange(0, pv.len() as int) =~= pv);
                }
                continue;
            }
            if comps.len() > 0 && next.file_type() != FT_DIR {
                proof {
                    assert(byte_strings(comps@).len() == comps@.len());
                }
                return Ok(None);
            }
            proof {
                assert(byte_strings(comps@).len() == comps@.len());
            }
            dir_ino = next_ino;
            dir = next;
        }
        proof {
            assert(byte_strings(comps@) =~= Seq::<Seq<u8>>::empty());
        }
        let zones = self.data_zones(&dir)?;
        let mut p: Vec<u8> = Vec::new();
        let mut i: usize = 0;
        while i < path.len()
            invariant
                i <= path@.len(),
                p@ == path@.subrange(0, i as int),
            decreases path@.len() - i,
        {
            p.push(path[i]);
            i = i + 1;
            assert(p@ =~= path@.subrange(0, i as int));
        }
        assert(p@ =~= path@);
        Ok(Some(File::new(self, p, dir_ino, dir, zones)))
    }

    /// Opens the file at `path` (see [`Self::resolve_path`]); `None` when
    /// the path does not resolve.
    pub fn open(&self, path: &str) -> (r: Result<Option<File>, IoError>)
        requires
            self.wf(),
        ensures
            match r {
                Ok(Some(f)) => self.opened(&f) && f.spec_path() == path.spec_bytes(),
                Ok(None) => true,
                Err(e) => e == IoError::OutOfRange,
            },
            match self.resolution(path.spec_bytes(), 0) {
                Ok(Some(i)) => r matches Ok(Some(f)) && f.spec_ino() == i,
                Ok(None) => r matches Ok(None),
                Err(_) => r is Err,
            },
    {
        self.resolve_path(path.as_bytes(), 0)
    }
}

} // verus!
