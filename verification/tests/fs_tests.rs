//! Directory and file behavior of the inode layer.

use rvkern::vfs::{Fs, Inode, InodeKind};

fn root() -> Inode {
    Inode::new(0)
}

#[test]
fn create_and_find() {
    let mut fs = Fs::new();
    let r = root();
    let a = r.create(&mut fs, &b"a".to_vec()).unwrap();
    assert!(r.find(&fs, &b"a".to_vec()).is_some());
    assert_eq!(r.find(&fs, &b"a".to_vec()).unwrap().get_inode_id(), a.get_inode_id());
    assert!(r.find(&fs, &b"b".to_vec()).is_none());
    assert!(a.is_file(&fs));
    assert!(r.is_dir(&fs));
    assert_eq!(a.get_links(&fs), 1);
}

#[test]
fn create_collision_returns_none() {
    let mut fs = Fs::new();
    let r = root();
    assert!(r.create(&mut fs, &b"x".to_vec()).is_some());
    assert!(r.create(&mut fs, &b"x".to_vec()).is_none());
}

#[test]
fn ls_in_order_after_unlink() {
    let mut fs = Fs::new();
    let r = root();
    r.create(&mut fs, &b"a".to_vec()).unwrap();
    r.create(&mut fs, &b"b".to_vec()).unwrap();
    r.create(&mut fs, &b"c".to_vec()).unwrap();
    let names = r.ls(&fs);
    assert_eq!(names, vec![b"a".to_vec(), b"b".to_vec(), b"c".to_vec()]);
    let (_, prev) = r.unlink(&mut fs, &b"b".to_vec()).unwrap();
    assert_eq!(prev, 1);
    let names = r.ls(&fs);
    assert_eq!(names, vec![b"a".to_vec(), b"c".to_vec()]);
    assert!(r.find(&fs, &b"b".to_vec()).is_none());
    assert_eq!(names.len() * 32, fs.get_inode(0).size as usize);
}

#[test]
fn link_accounting() {
    let mut fs = Fs::new();
    let r = root();
    let f = r.create(&mut fs, &b"n".to_vec()).unwrap();
    let id = f.get_inode_id();
    // two extra links
    assert!(r.link(&mut fs, &b"n1".to_vec(), id).is_some());
    assert!(r.link(&mut fs, &b"n2".to_vec(), id).is_some());
    assert_eq!(f.get_links(&fs), 3);
    // duplicate name refused
    assert!(r.link(&mut fs, &b"n1".to_vec(), id).is_none());
    assert_eq!(f.get_links(&fs), 3);
    let (t1, p1) = r.unlink(&mut fs, &b"n1".to_vec()).unwrap();
    assert_eq!((t1, p1), (id, 3));
    let (t2, p2) = r.unlink(&mut fs, &b"n2".to_vec()).unwrap();
    assert_eq!((t2, p2), (id, 2));
    assert_eq!(f.get_links(&fs), 1);
    let (t3, p3) = r.unlink(&mut fs, &b"n".to_vec()).unwrap();
    assert_eq!((t3, p3), (id, 1));
    // the inode is gone once the last link dropped
    assert!(!fs.inodes.contains(id as u64));
}

#[test]
fn unlink_frees_data_blocks() {
    let mut fs = Fs::new();
    let r = root();
    let f = r.create(&mut fs, &b"d".to_vec()).unwrap();
    let data: Vec<u8> = vec![7u8; 1500];
    assert_eq!(f.write_at(&mut fs, 0, &data), 1500);
    // 1500 bytes occupy three 512-byte blocks
    assert_eq!(fs.get_inode(f.get_inode_id()).blocks.len(), 3);
    let held: Vec<u32> = fs.get_inode(f.get_inode_id()).blocks.clone();
    let free_before = fs.free_blocks.len();
    r.unlink(&mut fs, &b"d".to_vec()).unwrap();
    assert_eq!(fs.free_blocks.len(), free_before + 3);
    for b in held {
        assert!(fs.free_blocks.contains(&b));
    }
}

#[test]
fn read_write_roundtrip() {
    let mut fs = Fs::new();
    let r = root();
    let f = r.create(&mut fs, &b"f".to_vec()).unwrap();
    let msg = b"HELLO".to_vec();
    assert_eq!(f.write_at(&mut fs, 0, &msg), 5);
    let mut buf = vec![0u8; 5];
    assert_eq!(f.read_at(&fs, 0, &mut buf), 5);
    assert_eq!(buf, msg);
    // a sparse write zero-fills the gap
    assert_eq!(f.write_at(&mut fs, 8, &b"X".to_vec()), 1);
    let mut buf = vec![9u8; 9];
    assert_eq!(f.read_at(&fs, 0, &mut buf), 9);
    assert_eq!(buf, b"HELLO\0\0\0X".to_vec());
    // reading past the end transfers nothing
    let mut buf = vec![1u8; 4];
    assert_eq!(f.read_at(&fs, 100, &mut buf), 0);
    assert_eq!(buf, vec![1u8; 4]);
}

#[test]
fn clear_returns_blocks() {
    let mut fs = Fs::new();
    let r = root();
    let f = r.create(&mut fs, &b"c".to_vec()).unwrap();
    f.write_at(&mut fs, 0, &vec![1u8; 600]);
    assert_eq!(fs.get_inode(f.get_inode_id()).blocks.len(), 2);
    f.clear(&mut fs);
    assert_eq!(fs.get_inode(f.get_inode_id()).size, 0);
    assert_eq!(fs.free_blocks.len(), 2);
    assert_eq!(f.get_links(&fs), 1);
}

#[test]
fn inode_ids_are_recycled() {
    let mut fs = Fs::new();
    let r = root();
    let a = r.create(&mut fs, &b"a".to_vec()).unwrap();
    let id = a.get_inode_id();
    r.unlink(&mut fs, &b"a".to_vec()).unwrap();
    let b = r.create(&mut fs, &b"b".to_vec()).unwrap();
    assert_eq!(b.get_inode_id(), id);
}

#[test]
fn link_to_the_directory_itself() {
    let mut fs = Fs::new();
    let r = root();
    // the root directory gains a name for itself
    let back = r.link(&mut fs, &b"self".to_vec(), 0).unwrap();
    assert_eq!(back.get_inode_id(), 0);
    assert_eq!(r.get_links(&fs), 2);
    assert!(r.find(&fs, &b"self".to_vec()).is_some());
    assert!(r.is_dir(&fs));
}

#[test]
fn unlink_a_self_link() {
    let mut fs = Fs::new();
    let r = root();
    assert!(r.link(&mut fs, &b"self".to_vec(), 0).is_some());
    assert_eq!(r.get_links(&fs), 2);
    // unlinking the self-link drops the count back and keeps the directory
    let (tid, prev) = r.unlink(&mut fs, &b"self".to_vec()).unwrap();
    assert_eq!((tid, prev), (0, 2));
    assert_eq!(r.get_links(&fs), 1);
    assert!(r.find(&fs, &b"self".to_vec()).is_none());
    assert!(r.is_dir(&fs));
}
