use athera::fs::devfs::{DevFs, DevOpen};
use athera::fs::fs_error::FsError;
use athera::fs::path::Path;
use athera::fs::vfs::OpenFlags;

#[test]
fn devfs_stat_known_and_unknown_names() {
    let fs = DevFs::new();
    assert_eq!(fs.stat(&Path::new("/")).unwrap().ino, 1);
    assert_eq!(fs.stat(&Path::new("/zero")).unwrap().ino, 3);
    assert_eq!(fs.stat(&Path::new("/vda/")).unwrap().ino, 5);
    assert!(matches!(fs.stat(&Path::new("/nope")), Err(FsError::NotFound)));
    assert!(matches!(fs.stat(&Path::new("/a/null")), Err(FsError::NotFound)));
    assert!(matches!(fs.stat(&Path::new("zero")), Err(FsError::Invalid)));
}

#[test]
fn devfs_open_unknown_name_is_not_found() {
    let fs = DevFs::new();
    assert!(matches!(fs.open(&Path::new("/nope"), OpenFlags(0)), Err(FsError::NotFound)));
    assert!(matches!(fs.open(&Path::new("//"), OpenFlags(0)), Ok(DevOpen::Root(_))));
    match fs.open(&Path::new("/console"), OpenFlags(0)) {
        Ok(DevOpen::Device(n, _)) => assert_eq!(n.ino, 4),
        _ => panic!("console"),
    }
}
