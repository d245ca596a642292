//! File types and mode bits, laid out as POSIX `st_mode`: the type in
//! bits 15..12, then setuid, setgid, sticky and the owner, group and other
//! `rwx` bits.
use vstd::prelude::*;

verus! {

/// Named pipe.
pub const FT_FIFO: u16 = 0o1;
/// Character device.
pub const FT_CHR: u16 = 0o2;
/// Directory.
pub const FT_DIR: u16 = 0o4;
/// Block device.
pub const FT_BLK: u16 = 0o6;
/// Regular file.
pub const FT_REG: u16 = 0o10;
/// Symbolic link.
pub const FT_LNK: u16 = 0o12;
/// Socket.
pub const FT_SOCK: u16 = 0o14;

/// A file mode: type and permission bits.
#[derive(Clone, Copy, Debug, PartialEq, Eq, Structural)]
pub struct Mode(pub u16);

/// The mode of file type `ft` with permission bits `perms`.
pub open spec fn mode_of(ft: u16, perms: u16) -> u16 {
    (ft * 4096 + perms % 4096) as u16
}

impl Mode {
    /// The mode of file type `ft` (one of the `FT_*` values) with the
    /// permission bits of `perms` (its low twelve bits).
    pub fn new(ft: u16, perms: u16) -> (r: Mode)
        requires
            ft < 16,
        ensures
            r.0 == mode_of(ft, perms),
    {
        Mode(ft * 4096 + perms % 4096)
    }

    /// The file type (bits 15..12).
    pub fn file_type(&self) -> (r: u16)
        ensures
            r == self.0 / 4096,
    {
        self.0 / 4096
    }

    /// The permission bits (bits 11..0).
    pub fn perms(&self) -> (r: u16)
        ensures
            r == self.0 % 4096,
    {
        self.0 % 4096
    }
}

} // verus!
