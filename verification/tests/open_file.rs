use rcore::easy_fs::block_dev::RamDisk;
use rcore::easy_fs::EasyFileSystem;
use rcore::kernel::fs::inode::{open_file, OSInode, OpenFlags, CREATE, RDWR, TRUNC, WRONLY};
use rcore::kernel::syscall::fs::sys_open;

#[test]
fn open_create_write_read_all() {
    let mut fs = EasyFileSystem::create(RamDisk::new(2048), 2048, 1);
    let root = fs.root_inode();
    assert!(open_file(&root, "app", OpenFlags { bits: 0 }, &mut fs).is_none());
    let mut w = open_file(&root, "app", OpenFlags { bits: CREATE | WRONLY }, &mut fs).unwrap();
    assert!(!w.readable() && w.writable());
    assert_eq!(w.write(b"hello ", &mut fs), 6);
    assert_eq!(w.write(b"world", &mut fs), 5);
    let mut r = open_file(&root, "app", OpenFlags { bits: 0 }, &mut fs).unwrap();
    assert!(r.readable() && !r.writable());
    let mut buf = [0u8; 4];
    assert_eq!(r.read(&mut buf, &mut fs), 4);
    assert_eq!(&buf, b"hell");
    assert_eq!(r.read_all(&mut fs), b"o world".to_vec());
    assert_eq!(r.read(&mut buf, &mut fs), 0);
    let mut again = open_file(&root, "app", OpenFlags { bits: RDWR }, &mut fs).unwrap();
    assert_eq!(again.read_all(&mut fs), b"hello world".to_vec());
}

#[test]
fn open_with_trunc_or_create_empties() {
    let mut fs = EasyFileSystem::create(RamDisk::new(2048), 2048, 1);
    let root = fs.root_inode();
    let mut w = open_file(&root, "f", OpenFlags { bits: CREATE | WRONLY }, &mut fs).unwrap();
    w.write(&vec![1u8; 2000], &mut fs);
    let mut t = open_file(&root, "f", OpenFlags { bits: TRUNC | RDWR }, &mut fs).unwrap();
    assert_eq!(t.read_all(&mut fs).len(), 0);
    t.write(b"abc", &mut fs);
    let mut c = open_file(&root, "f", OpenFlags { bits: CREATE | RDWR }, &mut fs).unwrap();
    assert_eq!(c.read_all(&mut fs).len(), 0);
    assert_eq!(root.ls(&mut fs).len(), 1);
}

#[test]
fn sys_open_installs_at_the_lowest_free_descriptor() {
    let mut fs = EasyFileSystem::create(RamDisk::new(2048), 2048, 1);
    let root = fs.root_inode();
    let mut table: Vec<Option<OSInode>> = vec![None];
    assert_eq!(sys_open(&mut table, &root, "x", OpenFlags { bits: 0 }, &mut fs), -1);
    assert_eq!(table.len(), 1);
    assert!(table[0].is_none());
    assert_eq!(sys_open(&mut table, &root, "x", OpenFlags { bits: CREATE | WRONLY }, &mut fs), 0);
    assert!(table[0].as_ref().unwrap().writable());
    assert_eq!(sys_open(&mut table, &root, "x", OpenFlags { bits: 0 }, &mut fs), 1);
    assert!(table[1].as_ref().unwrap().readable());
}

#[test]
fn long_missing_name_without_create_gives_minus_one() {
    let mut fs = EasyFileSystem::create(RamDisk::new(2048), 2048, 1);
    let root = fs.root_inode();
    let mut table: Vec<Option<OSInode>> = Vec::new();
    let long = "a_name_much_longer_than_the_limit_of_an_entry";
    assert_eq!(sys_open(&mut table, &root, long, OpenFlags { bits: 0 }, &mut fs), -1);
    assert!(table.is_empty());
}
