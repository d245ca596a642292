//! File systems: an in-memory block device, the MINIX v1 on-disk format,
//! paths, the VFS layer, the device file system and error codes.
pub mod disk;
pub mod minix;
pub mod path;
pub mod fs_error;
pub mod types;
pub mod vfs;
pub mod devfs;
pub mod record;
pub mod mbr;
