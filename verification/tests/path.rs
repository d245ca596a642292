use athera::fs::path::{Path, PathBuf};

#[test]
fn path_absolute_and_relative() {
    assert!(Path::new("/bin/sh").is_absolute());
    assert!(!Path::new("bin/sh").is_absolute());
    assert!(Path::new("bin/sh").is_relative());
}

#[test]
fn path_parent_and_file_name() {
    let p = Path::new("/usr/bin/ls");
    assert_eq!(p.parent(), Some("/usr/bin"));
    assert_eq!(p.file_name(), Some("ls"));
    assert_eq!(Path::new("/").file_name(), None);
}

#[test]
fn path_extension() {
    assert_eq!(Path::new("/a/b.txt").extension(), Some("txt"));
    assert_eq!(Path::new("/a/b").extension(), None);
}

#[test]
fn path_buf_push_and_pop() {
    let mut b = PathBuf::from_str("/usr");
    b.push(&Path::new("bin"));
    assert_eq!(b.as_path().as_str(), "/usr/bin");
    assert!(b.pop());
    assert_eq!(b.as_path().as_str(), "/usr");
}

#[test]
fn pop_undoes_push_of_one_component() {
    for base in ["", "/", "/a", "a", "a/b"] {
        let mut p = PathBuf::from_str(base);
        p.push(&Path::new("c"));
        assert!(p.pop());
        assert_eq!(p.as_path().as_str(), base);
    }
}

#[test]
fn set_file_name_then_file_name() {
    for base in ["", "/", "/a", "a", "/a/b/", "a//b"] {
        let mut p = PathBuf::from_str(base);
        p.set_file_name("n");
        assert_eq!(p.as_path().file_name(), Some("n"));
    }
}
