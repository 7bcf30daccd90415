use rcore_os::fs_inode::{open_file, OSInode};
use rcore_os::syscall_fs::{O_CREATE, O_RDWR, O_TRUNC, O_WRONLY};
use rcore_os::vfs::{DiskInodeType, EasyFileSystem, Inode};

fn names(fs: &EasyFileSystem, dir: Inode) -> Vec<Vec<u8>> {
    dir.ls(fs)
}

#[test]
fn fs_test_walkthrough() {
    let mut fs = EasyFileSystem::new();
    let root = fs.root_inode();
    assert!(names(&fs, root).is_empty());
    // touch hello.txt
    let hello = open_file(&mut fs, b"hello.txt", O_CREATE | O_WRONLY).unwrap();
    assert!(!hello.readable() && hello.writable());
    assert_eq!(names(&fs, root), vec![b"hello.txt".to_vec()]);
    // mkdir testdir
    let testdir = root.create_as(&mut fs, b"testdir", DiskInodeType::Directory).unwrap();
    assert_eq!(names(&fs, root), vec![b"hello.txt".to_vec(), b"testdir".to_vec()]);
    // cd testdir; the directory is empty
    let cwd = root.lookup_path(&fs, b"testdir").unwrap();
    assert_eq!(cwd, testdir);
    assert!(cwd.is_empty_directory(&fs));
    let inner = cwd.create(&mut fs, b"inner.txt").unwrap();
    let nested = cwd.create_as(&mut fs, b"nested", DiskInodeType::Directory).unwrap();
    assert_eq!(names(&fs, cwd), vec![b"inner.txt".to_vec(), b"nested".to_vec()]);
    // a non-empty directory cannot be removed
    assert_eq!(root.unlink(&mut fs, b"testdir"), None);
    assert_eq!(cwd.unlink(&mut fs, b"inner.txt"), Some(inner.inode_number()));
    assert_eq!(cwd.unlink(&mut fs, b"nested"), Some(nested.inode_number()));
    assert!(cwd.is_empty_directory(&fs));
    assert_eq!(root.unlink(&mut fs, b"hello.txt"), Some(hello.inode.inode_number()));
    assert_eq!(root.unlink(&mut fs, b"testdir"), Some(testdir.inode_number()));
    assert!(names(&fs, root).is_empty());
}

#[test]
fn inode_numbers_are_reused_lowest_first() {
    let mut fs = EasyFileSystem::new();
    let root = fs.root_inode();
    let a = root.create(&mut fs, b"a").unwrap();
    let b = root.create(&mut fs, b"b").unwrap();
    assert_eq!((a.inode_number(), b.inode_number()), (1, 2));
    assert_eq!(root.unlink(&mut fs, b"a"), Some(1));
    let c = root.create(&mut fs, b"c").unwrap();
    assert_eq!(c.inode_number(), 1);
    let d = root.create(&mut fs, b"d").unwrap();
    assert_eq!(d.inode_number(), 3);
}

#[test]
fn names_are_unique_and_reserved_names_refused() {
    let mut fs = EasyFileSystem::new();
    let root = fs.root_inode();
    assert!(root.create(&mut fs, b"x").is_some());
    assert!(root.create(&mut fs, b"x").is_none());
    assert!(root.create(&mut fs, b".").is_none());
    assert!(root.create(&mut fs, b"..").is_none());
    assert!(!root.link(&mut fs, b"x", 5));
    assert!(!root.link(&mut fs, b"..", 1));
    assert_eq!(root.unlink(&mut fs, b"."), None);
    assert_eq!(root.unlink(&mut fs, b"missing"), None);
    assert!(!root.detach(&mut fs, b"missing"));
}

#[test]
fn rename_moves_the_entry_last() {
    let mut fs = EasyFileSystem::new();
    let root = fs.root_inode();
    let a = root.create(&mut fs, b"a").unwrap();
    root.create(&mut fs, b"b").unwrap();
    assert!(root.rename(&mut fs, b"a", b"z"));
    assert_eq!(names(&fs, root), vec![b"b".to_vec(), b"z".to_vec()]);
    assert_eq!(root.find(&fs, b"z"), Some(a));
    assert_eq!(root.find(&fs, b"a"), None);
    assert!(!root.rename(&mut fs, b"a", b"y"));
    assert!(!root.rename(&mut fs, b"z", b"b"));
    assert!(!root.rename(&mut fs, b"z", b".."));
}

#[test]
fn link_and_detach_keep_the_inode() {
    let mut fs = EasyFileSystem::new();
    let root = fs.root_inode();
    let f = root.create(&mut fs, b"f").unwrap();
    f.write_at(&mut fs, 0, b"data");
    assert!(root.link(&mut fs, b"g", f.inode_number()));
    assert_eq!(root.find(&fs, b"g"), Some(f));
    assert!(root.detach(&mut fs, b"f"));
    assert_eq!(root.find(&fs, b"f"), None);
    let g = root.find(&fs, b"g").unwrap();
    assert_eq!(g.read_at(&fs, 0, 10), b"data".to_vec());
}

#[test]
fn lookup_follows_dot_dot_and_slashes() {
    let mut fs = EasyFileSystem::new();
    let root = fs.root_inode();
    let a = root.create_as(&mut fs, b"a", DiskInodeType::Directory).unwrap();
    let b = a.create_as(&mut fs, b"b", DiskInodeType::Directory).unwrap();
    let f = b.create(&mut fs, b"f").unwrap();
    assert_eq!(root.lookup_path(&fs, b"a/b/f"), Some(f));
    assert_eq!(root.lookup_path(&fs, b"/a//b/./f"), Some(f));
    assert_eq!(b.lookup_path(&fs, b"../.."), Some(root));
    assert_eq!(b.lookup_path(&fs, b".."), Some(a));
    assert_eq!(root.lookup_path(&fs, b".."), Some(root));
    assert_eq!(root.lookup_path(&fs, b""), Some(root));
    assert_eq!(a.lookup_path(&fs, b"/"), Some(a));
    assert_eq!(a.lookup_path(&fs, b"."), Some(a));
    assert_eq!(root.lookup_path(&fs, b"a/b/"), Some(b));
    // a trailing slash asks for a directory
    assert_eq!(root.lookup_path(&fs, b"a/b/f/"), None);
    // nothing is reached through a file
    assert_eq!(root.lookup_path(&fs, b"a/b/f/x"), None);
    assert_eq!(root.lookup_path(&fs, b"a/missing/f"), None);
}

#[test]
fn write_then_read_back() {
    let mut fs = EasyFileSystem::new();
    let root = fs.root_inode();
    let f = root.create(&mut fs, b"f").unwrap();
    assert_eq!(f.write_at(&mut fs, 2, b"abc"), 3);
    // the gap before the offset reads as zeros
    assert_eq!(f.read_at(&fs, 0, 10), vec![0, 0, b'a', b'b', b'c']);
    assert_eq!(f.read_at(&fs, 3, 1), b"b".to_vec());
    assert!(f.read_at(&fs, 5, 4).is_empty());
    assert_eq!(f.size(&fs), 5);
    f.write_at(&mut fs, 0, b"xy");
    assert_eq!(f.read_at(&fs, 0, 5), b"xyabc".to_vec());
    f.clear(&mut fs);
    assert_eq!(f.size(&fs), 0);
}

#[test]
fn open_file_flags() {
    let mut fs = EasyFileSystem::new();
    assert!(open_file(&mut fs, b"f", 0).is_none());
    let mut w = open_file(&mut fs, b"f", O_CREATE | O_RDWR).unwrap();
    assert!(w.readable() && w.writable());
    assert_eq!(w.write(&mut fs, b"hello"), 5);
    assert_eq!(w.offset, 5);
    let mut r: OSInode = open_file(&mut fs, b"f", 0).unwrap();
    assert!(r.readable() && !r.writable());
    assert_eq!(r.read(&fs, 2), b"he".to_vec());
    assert_eq!(r.read_all(&fs), b"llo".to_vec());
    assert!(r.read(&fs, 2).is_empty());
    // opening with O_TRUNC empties the file
    let mut t = open_file(&mut fs, b"f", O_TRUNC | O_WRONLY).unwrap();
    assert!(t.read_all(&fs).is_empty());
    t.write(&mut fs, b"x");
    // opening with O_CREATE empties an existing file too
    let mut c = open_file(&mut fs, b"f", O_CREATE).unwrap();
    assert!(c.read_all(&fs).is_empty());
}
