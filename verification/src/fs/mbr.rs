//! The master boot record: boot code, four 16-byte partition entries at
//! byte 446 and the signature `0xAA55` at byte 510.
use vstd::prelude::*;
use crate::fs::disk::{u16_at, u32_at};
use crate::exec::{read_u16, read_u32};

verus! {

/// Boot indicator of an inactive partition.
pub const BOOT_INACTIVE: u8 = 0x00;
/// Boot indicator of the active partition.
pub const BOOT_ACTIVE: u8 = 0x80;
/// Partition type of an unused entry.
pub const PARTITION_EMPTY: u8 = 0x00;
/// Partition type of an extended partition.
pub const PARTITION_EXTENDED: u8 = 0x05;
/// Partition type of a MINIX file system.
pub const PARTITION_MINIX: u8 = 0x81;
/// Partition type of a Linux file system.
pub const PARTITION_LINUX: u8 = 0x83;
/// The boot signature.
pub const MBR_SIGNATURE: u16 = 0xAA55;

/// A partition entry: boot indicator, CHS start, type, CHS end, first
/// sector (LBA) and number of sectors.
#[derive(Clone, Copy, Debug)]
pub struct MbrPartitionEntry {
    pub boot_indicator: u8,
    pub chs_start: [u8; 3],
    pub partition_type: u8,
    pub chs_end: [u8; 3],
    pub lba_start: u32,
    pub sector_count: u32,
}

/// A boot sector: boot code, four partition entries and the signature.
pub struct MbrSector {
    pub boot_code: Vec<u8>,
    pub partitions: Vec<MbrPartitionEntry>,
    pub boot_signature: u16,
}

/// The partition entry stored at `off` of `d`.
pub open spec fn entry_at(d: Seq<u8>, off: int, e: MbrPartitionEntry) -> bool {
    &&& e.boot_indicator == d[off]
    &&& e.chs_start@ == d.subrange(off + 1, off + 4)
    &&& e.partition_type == d[off + 4]
    &&& e.chs_end@ == d.subrange(off + 5, off + 8)
    &&& e.lba_start == u32_at(d, off + 8)
    &&& e.sector_count == u32_at(d, off + 12)
}

/// The partition entry at `off` of `d`.
fn entry(d: &[u8], off: usize) -> (r: MbrPartitionEntry)
    requires
        off + 16 <= d@.len(),
    ensures
        entry_at(d@, off as int, r),
{
    let n = d.len();
    let chs_start = [d[off + 1], d[off + 2], d[off + 3]];
    let chs_end = [d[off + 5], d[off + 6], d[off + 7]];
    let r = MbrPartitionEntry {
        boot_indicator: d[off],
        chs_start,
        partition_type: d[off + 4],
        chs_end,
        lba_start: read_u32(d, off + 8),
        sector_count: read_u32(d, off + 12),
    };
    assert(r.chs_start@ =~= d@.subrange(off + 1, off + 4));
    assert(r.chs_end@ =~= d@.subrange(off + 5, off + 8));
    r
}

impl MbrSector {
    /// The boot sector at the start of `d`; `None` when `d` is shorter
    /// than 512 bytes.
    pub fn parse(d: &[u8]) -> (r: Option<MbrSector>)
        ensures
            match r {
                Some(m) => {
                    &&& d@.len() >= 512
                    &&& m.boot_code@ == d@.subrange(0, 446)
                    &&& m.partitions@.len() == 4
                    &&& forall|k: int| 0 <= k < 4 ==> entry_at(d@, 446 + 16 * k, #[trigger] m.partitions@[k])
                    &&& m.boot_signature == u16_at(d@, 510)
                },
                None => d@.len() < 512,
            },
    {
        if d.len() < 512 {
            return None;
        }
        let mut boot_code: Vec<u8> = Vec::new();
        let mut i: usize = 0;
        while i < 446
            invariant
                i <= 446,
                d@.len() >= 512,
                boot_code@ == d@.subrange(0, i as int),
            decreases 446 - i,
        {
            boot_code.push(d[i]);
            i = i + 1;
        }
        let mut partitions: Vec<MbrPartitionEntry> = Vec::new();
        let mut k: usize = 0;
        while k < 4
            invariant
                k <= 4,
                d@.len() >= 512,
                partitions@.len() == k,
                forall|j: int| 0 <= j < k ==> entry_at(d@, 446 + 16 * j, #[trigger] partitions@[j]),
            decreases 4 - k,
        {
            let e = entry(d, 446 + 16 * k);
            partitions.push(e);
            k = k + 1;
        }
        let boot_signature = read_u16(d, 510);
        Some(MbrSector { boot_code, partitions, boot_signature })
    }

    /// The sector ends with the boot signature `0xAA55`.
    pub fn is_valid(&self) -> (r: bool)
        ensures
            r == (self.boot_signature == MBR_SIGNATURE),
    {
        self.boot_signature == MBR_SIGNATURE
    }
}

} // verus!
