use athera::fs::disk::MemDisk;
use athera::fs::minix::{DINode, MinixFs};
use athera::fs::vfs::Whence;

const ZONE: usize = 1024;
const NZONES: usize = 64;
const FIRST_DATA: usize = 5;
const INODE_TABLE: usize = 4 * ZONE;

fn put16(d: &mut [u8], off: usize, v: u16) {
    d[off] = (v & 0xff) as u8;
    d[off + 1] = (v >> 8) as u8;
}

fn put32(d: &mut [u8], off: usize, v: u32) {
    for k in 0..4 {
        d[off + k] = ((v >> (8 * k)) & 0xff) as u8;
    }
}

/// A small MINIX v1 image: 1 KiB zones, 16 inodes, 64 zones, and a root
/// directory holding `.` and `..` in the first data zone.
fn image() -> MinixFs {
    let mut d = vec![0u8; NZONES * ZONE];
    let sb = 1024;
    put16(&mut d, sb, 16);
    put16(&mut d, sb + 2, NZONES as u16);
    put16(&mut d, sb + 4, 1);
    put16(&mut d, sb + 6, 1);
    put16(&mut d, sb + 8, FIRST_DATA as u16);
    put16(&mut d, sb + 10, 0);
    put32(&mut d, sb + 12, 0x1000_0000);
    put16(&mut d, sb + 16, 0x137F);
    put16(&mut d, sb + 18, 1);
    // Inode bitmap: bit 0 reserved, bit 1 the root.
    d[2 * ZONE] = 0b11;
    // Zone bitmap: bit 0 reserved, bit 1 the root's zone.
    d[3 * ZONE] = 0b11;
    // Root inode.
    put16(&mut d, INODE_TABLE, 0o40755);
    put32(&mut d, INODE_TABLE + 4, 32);
    d[INODE_TABLE + 13] = 2;
    put16(&mut d, INODE_TABLE + 14, FIRST_DATA as u16);
    // Root entries `.` and `..`.
    let z = FIRST_DATA * ZONE;
    put16(&mut d, z, 1);
    d[z + 2] = b'.';
    put16(&mut d, z + 16, 1);
    d[z + 18] = b'.';
    d[z + 19] = b'.';
    MinixFs::from_disk(MemDisk::new(d)).unwrap().unwrap()
}

#[test]
fn open_root_gives_root_directory() {
    let fs = image();
    let f = fs.open("/").unwrap().unwrap();
    assert_eq!(f.ino(), 1);
    let g = fs.open("").unwrap().unwrap();
    assert_eq!(g.ino(), 1);
}

#[test]
fn open_missing_path_is_none() {
    let fs = image();
    assert!(fs.open("/nothing").unwrap().is_none());
}

#[test]
fn created_directory_resolves() {
    let mut fs = image();
    let ino = fs.create_dir(1, "a").unwrap().unwrap();
    assert_eq!(ino, 2);
    assert_eq!(fs.open("/a").unwrap().unwrap().ino(), 2);
    assert_eq!(fs.open("//a/").unwrap().unwrap().ino(), 2);
    assert_eq!(fs.open("/a/..").unwrap().unwrap().ino(), 1);
    assert_eq!(fs.open("/a/.").unwrap().unwrap().ino(), 2);
}

#[test]
fn file_component_in_the_middle_is_none() {
    let mut fs = image();
    let f = fs.create_file(1, "f").unwrap().unwrap();
    assert_eq!(fs.open("/f").unwrap().unwrap().ino(), f);
    assert!(fs.open("/f/x").unwrap().is_none());
}

#[test]
fn symlink_is_followed() {
    let mut fs = image();
    let a = fs.create_dir(1, "a").unwrap().unwrap();
    let l = fs.symlink(1, "l", "/a").unwrap().unwrap();
    assert_ne!(l, a);
    assert_eq!(fs.open("/l").unwrap().unwrap().ino(), a);
    let r = fs.symlink(a, "up", "..").unwrap().unwrap();
    assert_ne!(r, a);
    assert_eq!(fs.open("/a/up").unwrap().unwrap().ino(), 1);
}

#[test]
fn symlink_loop_gives_none() {
    let mut fs = image();
    fs.symlink(1, "x", "/y").unwrap().unwrap();
    fs.symlink(1, "y", "/x").unwrap().unwrap();
    assert!(fs.open("/x").unwrap().is_none());
}

#[test]
fn invalid_directory_name_is_none() {
    let mut fs = image();
    assert_eq!(fs.create_dir(1, "").unwrap(), None);
    assert_eq!(fs.create_dir(1, "a/b").unwrap(), None);
}

#[test]
fn empty_write_writes_nothing() {
    let mut fs = image();
    let ino = fs.create_file(1, "f").unwrap().unwrap();
    let mut f = fs.open("/f").unwrap().unwrap();
    assert_eq!(f.ino(), ino);
    assert_eq!(f.write_at(&mut fs, &[], 0).unwrap(), 0);
    assert_eq!(f.write(&mut fs, &[]).unwrap(), 0);
    assert_eq!(f.offset(), 0);
    assert_eq!(f.write(&mut fs, b"hi").unwrap(), 2);
    assert_eq!(f.offset(), 2);
    assert_eq!(f.read_at(&fs, 2, 0).unwrap(), b"hi".to_vec());
}

#[test]
fn seek_clamps_and_never_fails() {
    let mut fs = image();
    fs.create_file(1, "f").unwrap().unwrap();
    let mut f = fs.open("/f").unwrap().unwrap();
    assert_eq!(f.write(&mut fs, b"hello").unwrap(), 5);
    assert_eq!(f.seek(2, Whence::Start).unwrap(), 2);
    assert_eq!(f.seek(1, Whence::Current).unwrap(), 3);
    assert_eq!(f.seek(-1, Whence::End).unwrap(), 4);
    assert_eq!(f.seek(100, Whence::Start).unwrap(), 5);
    assert_eq!(f.seek(-100, Whence::Current).unwrap(), 0);
}

#[test]
fn remove_dir_refuses_dot_names() {
    let mut fs = image();
    let a = fs.create_dir(1, "a").unwrap().unwrap();
    assert_eq!(fs.remove_dir(a, ".").unwrap(), false);
    assert_eq!(fs.remove_dir(a, "..").unwrap(), false);
    assert_eq!(fs.open("/a").unwrap().unwrap().ino(), a);
    assert_eq!(fs.remove_dir(1, "a").unwrap(), true);
    assert!(fs.open("/a").unwrap().is_none());
}

#[test]
fn unlink_of_a_linked_file_succeeds() {
    let mut fs = image();
    let f = fs.create_file(1, "f").unwrap().unwrap();
    assert_eq!(fs.link(f, 1, "g").unwrap(), true);
    assert_eq!(fs.open("/g").unwrap().unwrap().ino(), f);
    assert_eq!(fs.unlink(1, "g").unwrap(), true);
    assert!(fs.open("/g").unwrap().is_none());
    assert_eq!(fs.open("/f").unwrap().unwrap().ino(), f);
    assert_eq!(fs.unlink(1, "g").unwrap(), false);
}

#[test]
fn file_zones_fill_the_single_indirect_table() {
    let mut fs = image();
    let mut inode = DINode::empty(0o100644, 1);
    inode.zone[7] = 20;
    let zones: Vec<u16> = (30..40).collect();
    assert_eq!(fs.write_file_zones(&mut inode, &zones), Ok(()));
    assert_eq!(&inode.zone[..7], &zones[..7]);
    assert_eq!(inode.zone[7], 20);
    assert_eq!(inode.zone[8], 0);
    let table = fs.read_zone_table(20).unwrap();
    assert_eq!(&table[..3], &[37, 38, 39]);
    assert!(table[3..].iter().all(|&z| z == 0));
    let mut small = DINode::empty(0o100644, 1);
    assert_eq!(fs.write_file_zones(&mut small, &vec![30, 31]), Ok(()));
    assert_eq!(&small.zone[..], &[30, 31, 0, 0, 0, 0, 0, 0, 0]);
}
