//! Sv39 virtual and physical addresses as bit-field views over `u64` (the kernel targets RV64).
use vstd::prelude::*;

verus! {

/// Mask of the 44-bit physical page number.
pub const PPN_MASK: u64 = 0xfff_ffff_ffff;

/// Mask of a 9-bit page-table index.
pub const VPN_MASK: u64 = 0x1ff;

/// Bits `lo..lo+width` of `x`, read arithmetically.
pub open spec fn field(x: nat, lo: nat, width: nat) -> nat {
    (x / vstd::arithmetic::power2::pow2(lo)) % vstd::arithmetic::power2::pow2(width)
}

/// A Sv39 virtual address: page offset (bits 0..12) and the three 9-bit
/// page-table indices `vpn0` (12..21), `vpn1` (21..30), `vpn2` (30..39).
#[derive(Clone, Copy, Debug, PartialEq, Eq, Structural)]
pub struct VirtualAddr(pub u64);

/// A Sv39 physical address: page offset (bits 0..12) and the 44-bit
/// physical page number (bits 12..56).
#[derive(Clone, Copy, Debug, PartialEq, Eq, Structural)]
pub struct PhysicalAddr(pub u64);

/// Index into the level-0 table: bits 12..21.
pub open spec fn spec_vpn0(va: u64) -> u64 {
    ((va / 0x1000) % 0x200) as u64
}

/// Index into the level-1 table: bits 21..30.
pub open spec fn spec_vpn1(va: u64) -> u64 {
    ((va / 0x20_0000) % 0x200) as u64
}

/// Index into the root table: bits 30..39.
pub open spec fn spec_vpn2(va: u64) -> u64 {
    ((va / 0x4000_0000) % 0x200) as u64
}

/// Physical page number of a physical address: bits 12..56.
pub open spec fn spec_ppn(pa: u64) -> u64 {
    ((pa / 0x1000) % 0x1000_0000_0000) as u64
}

impl VirtualAddr {
    /// The zero address.
    pub fn new() -> (r: Self)
        ensures
            r.0 == 0,
    {
        VirtualAddr(0)
    }

    /// Wraps a raw address.
    pub fn from_u64(v: u64) -> (r: Self)
        ensures
            r.0 == v,
    {
        VirtualAddr(v)
    }

    /// Offset within the 4 KiB page.
    pub fn page_offset(&self) -> (r: u64)
        ensures
            r == self.0 % 0x1000,
    {
        self.0 % 0x1000
    }

    /// Level-0 index.
    pub fn vpn0(&self) -> (r: u64)
        ensures
            r == spec_vpn0(self.0),
            r < 512,
    {
        (self.0 / 0x1000) % 0x200
    }

    /// Level-1 index.
    pub fn vpn1(&self) -> (r: u64)
        ensures
            r == spec_vpn1(self.0),
            r < 512,
    {
        (self.0 / 0x20_0000) % 0x200
    }

    /// Root-level index.
    pub fn vpn2(&self) -> (r: u64)
        ensures
            r == spec_vpn2(self.0),
            r < 512,
    {
        (self.0 / 0x4000_0000) % 0x200
    }

    /// The 27-bit virtual page number (bits 12..39).
    pub fn vpn(&self) -> (r: u64)
        ensures
            r == (self.0 / 0x1000) % 0x800_0000,
    {
        (self.0 / 0x1000) % 0x800_0000
    }
}

impl PhysicalAddr {
    /// The zero address.
    pub fn new() -> (r: Self)
        ensures
            r.0 == 0,
    {
        PhysicalAddr(0)
    }

    /// Wraps a raw address.
    pub fn from_u64(v: u64) -> (r: Self)
        ensures
            r.0 == v,
    {
        PhysicalAddr(v)
    }

    /// Offset within the 4 KiB page.
    pub fn page_offset(&self) -> (r: u64)
        ensures
            r == self.0 % 0x1000,
    {
        self.0 % 0x1000
    }

    /// Physical page number (bits 12..56).
    pub fn ppn(&self) -> (r: u64)
        ensures
            r == spec_ppn(self.0),
            r <= PPN_MASK,
    {
        (self.0 / 0x1000) % 0x1000_0000_0000
    }

    /// The page-aligned address of physical page number `ppn`
    /// (bits above 44 of `ppn` are dropped).
    pub fn from_ppn(ppn: u64) -> (r: Self)
        ensures
            r.0 == (ppn % 0x1000_0000_0000) * 0x1000,
            spec_ppn(r.0) == ppn % 0x1000_0000_0000,
            r.0 % 0x1000 == 0,
    {
        let p = ppn % 0x1000_0000_0000;
        let r = p * 0x1000;
        proof {
            assert(r / 0x1000 == p) by (nonlinear_arith) requires r == p * 0x1000;
            assert(r % 0x1000 == 0) by (nonlinear_arith) requires r == p * 0x1000;
        }
        PhysicalAddr(r)
    }

    /// Replaces the physical page number, keeping the page offset.
    pub fn set_ppn(&mut self, ppn: u64)
        requires
            old(self).0 < 0x100_0000_0000_0000,
        ensures
            final(self).0 == (ppn % 0x1000_0000_0000) * 0x1000 + old(self).0 % 0x1000,
            spec_ppn(final(self).0) == ppn % 0x1000_0000_0000,
            final(self).0 % 0x1000 == old(self).0 % 0x1000,
    {
        let off = self.0 % 0x1000;
        let p = ppn % 0x1000_0000_0000;
        let r = p * 0x1000 + off;
        proof {
            assert(r / 0x1000 == p && r % 0x1000 == off) by (nonlinear_arith)
                requires r == p * 0x1000 + off, off < 0x1000;
        }
        self.0 = r;
    }

    /// The raw address.
    pub fn as_u64(&self) -> (r: u64)
        ensures
            r == self.0,
    {
        self.0
    }
}

} // verus!
