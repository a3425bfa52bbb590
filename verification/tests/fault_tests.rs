//! Page-fault scenarios: demand paging, copy-on-write, private file pages.

use rvkern::cfg::PAGE_SIZE;
use rvkern::kernel::{FrameRec, Kernel};
use rvkern::memory_set::{MapArea, MapType, MemorySet, Page, PageFault, PageFaultType, Segment};
use rvkern::mframe::MFrameHandle;
use rvkern::pte::Perm;
use rvkern::vfs::{Fs, Inode};

fn rwu() -> Perm {
    Perm { r: true, w: true, x: false, u: true }
}

fn frame_byte(k: &Kernel, ppn: u64, i: usize) -> u8 {
    k.pool.get(ppn).unwrap().bytes[i]
}

#[test]
fn lazy_page_faults_in_zeroed() {
    let mut k = Kernel::new();
    let fs = Fs::new();
    let mut ms = MemorySet::new_bare(&mut k);
    assert_eq!(ms.mmap(&mut k, 0x80000000, 0x80004000, rwu()), 0);
    assert_eq!(k.next_ppn, 0);
    let f = PageFault::new(PageFaultType::Load, 0x80001000);
    assert_eq!(ms.page_fault(&mut k, &fs, f), 0);
    // exactly one frame came from the allocator, mapped R+W+U and zeroed
    assert_eq!(k.next_ppn, 1);
    let pte = ms.translate(&k, 0x80001).unwrap();
    assert!(pte.v && pte.r && pte.w && pte.u && !pte.x);
    for i in 0..PAGE_SIZE {
        assert_eq!(frame_byte(&k, pte.ppn, i), 0);
    }
    // the neighbours stay lazy
    assert!(!ms.translate(&k, 0x80000).unwrap().v);
}

#[test]
fn fault_codes_follow_permissions() {
    let mut k = Kernel::new();
    let fs = Fs::new();
    let mut ms = MemorySet::new_bare(&mut k);
    let ro = Perm { r: true, w: false, x: false, u: true };
    assert_eq!(ms.mmap(&mut k, 0x1000, 0x2000, ro), 0);
    assert_eq!(ms.page_fault(&mut k, &fs, PageFault::new(PageFaultType::Store, 0x1000)), -4);
    assert_eq!(ms.page_fault(&mut k, &fs, PageFault::new(PageFaultType::Instruction, 0x1000)), -3);
    assert_eq!(ms.page_fault(&mut k, &fs, PageFault::new(PageFaultType::Load, 0x9000)), -1);
    let kernel_only = Perm { r: true, w: true, x: false, u: false };
    assert_eq!(ms.mmap(&mut k, 0x3000, 0x4000, kernel_only), 0);
    assert_eq!(ms.page_fault(&mut k, &fs, PageFault::new(PageFaultType::Load, 0x3000)), -2);
}

#[test]
fn cow_write_keeps_parent_bytes() {
    let mut k = Kernel::new();
    let fs = Fs::new();
    let mut parent = MemorySet::new_bare(&mut k);
    assert_eq!(parent.mmap(&mut k, 0x5000, 0x6000, rwu()), 0);
    // materialize and fill the page with "abc"
    assert_eq!(parent.page_fault(&mut k, &fs, PageFault::new(PageFaultType::Store, 0x5000)), 0);
    let ppte = parent.translate(&k, 5).unwrap();
    k.write_byte(ppte.ppn, 0, b'a');
    k.write_byte(ppte.ppn, 1, b'b');
    k.write_byte(ppte.ppn, 2, b'c');
    // share the page copy-on-write into a second space, as fork does
    let child = MemorySet::new_bare(&mut k);
    let parent_key = rvkern::kernel::pte_key(parent.pt, 5);
    let child_key = rvkern::kernel::pte_key(child.pt, 5);
    k.create_force(child_key);
    let ph = MFrameHandle { key: parent_key };
    let ch = ph.share_cow(&mut k, child_key);
    // both sides now share one frame, write-protected
    assert!(matches!(*k.frames.get(parent_key).unwrap(), FrameRec::Cow(_)));
    assert!(matches!(*k.frames.get(child_key).unwrap(), FrameRec::Cow(_)));
    let p0 = k.ptes.get(parent_key).unwrap().ppn;
    assert_eq!(p0, k.ptes.get(child_key).unwrap().ppn);
    assert!(!k.ptes.get(parent_key).unwrap().w);
    // the child takes ownership and writes 'Z'
    ch.cown(&mut k);
    let cp = *k.ptes.get(child_key).unwrap();
    assert!(cp.w);
    assert_ne!(cp.ppn, p0);
    k.write_byte(cp.ppn, 0, b'Z');
    // child sees "Zbc", parent still sees "abc"
    assert_eq!(frame_byte(&k, cp.ppn, 0), b'Z');
    assert_eq!(frame_byte(&k, cp.ppn, 1), b'b');
    assert_eq!(frame_byte(&k, p0, 0), b'a');
    assert_eq!(frame_byte(&k, p0, 1), b'b');
    assert_eq!(frame_byte(&k, p0, 2), b'c');
    // the parent takes its side over as well and becomes writable again
    ph.cown(&mut k);
    assert!(k.ptes.get(parent_key).unwrap().w);
    assert!(matches!(*k.frames.get(parent_key).unwrap(), FrameRec::Owned(_)));
}

#[test]
fn file_priv_write_leaves_file_unchanged() {
    let mut k = Kernel::new();
    let mut fs = Fs::new();
    let root = Inode::new(0);
    let f = root.create(&mut fs, &b"img".to_vec()).unwrap();
    let mut content = b"HELLO".to_vec();
    content.resize(PAGE_SIZE, 0);
    assert_eq!(f.write_at(&mut fs, 0, &content), PAGE_SIZE);
    let mut ms = MemorySet::new_bare(&mut k);
    let area = MapArea::map_file(
        &mut k,
        ms.pt,
        0x10,
        0x11,
        rwu(),
        MapType::FilePriv,
        f,
        0,
    );
    ms.areas.push(area);
    // read fault brings the file page in, write-protected
    let addr = 0x10 * PAGE_SIZE;
    assert_eq!(ms.page_fault(&mut k, &fs, PageFault::new(PageFaultType::Load, addr)), 0);
    let pte = ms.translate(&k, 0x10).unwrap();
    assert!(pte.v && !pte.w);
    assert_eq!(frame_byte(&k, pte.ppn, 0), b'H');
    // store fault gives the page a private frame
    assert_eq!(ms.page_fault(&mut k, &fs, PageFault::new(PageFaultType::Store, addr)), 0);
    let pte2 = ms.translate(&k, 0x10).unwrap();
    assert!(pte2.v && pte2.w);
    assert_ne!(pte2.ppn, pte.ppn);
    assert_eq!(frame_byte(&k, pte2.ppn, 0), b'H');
    k.write_byte(pte2.ppn, 0, b'h');
    // drop the space's pages; the backing file still starts with 'H'
    let area = ms.areas.pop().unwrap();
    area.release(&mut k, ms.pt);
    k.slim(&mut fs);
    let mut buf = vec![0u8; 5];
    f.read_at(&fs, 0, &mut buf);
    assert_eq!(buf, b"HELLO".to_vec());
}

#[test]
fn file_shared_write_syncs_on_slim() {
    let mut k = Kernel::new();
    let mut fs = Fs::new();
    let root = Inode::new(0);
    let f = root.create(&mut fs, &b"data".to_vec()).unwrap();
    let mut content = vec![7u8; PAGE_SIZE];
    content[0] = b'A';
    assert_eq!(f.write_at(&mut fs, 0, &content), PAGE_SIZE);
    let mut ms = MemorySet::new_bare(&mut k);
    let area = MapArea::map_file(
        &mut k,
        ms.pt,
        0x20,
        0x21,
        rwu(),
        MapType::FileShared,
        f,
        0,
    );
    ms.areas.push(area);
    let addr = 0x20 * PAGE_SIZE;
    assert_eq!(ms.page_fault(&mut k, &fs, PageFault::new(PageFaultType::Store, addr)), 0);
    let pte = ms.translate(&k, 0x20).unwrap();
    assert!(pte.v && pte.w);
    // write into the shared resident page
    k.write_byte(pte.ppn, 0, b'B');
    // release the mapping and reclaim: the bytes land in the file
    let area = ms.areas.pop().unwrap();
    area.release(&mut k, ms.pt);
    k.slim(&mut fs);
    let mut buf = vec![0u8; 2];
    f.read_at(&fs, 0, &mut buf);
    assert_eq!(buf[0], b'B');
    assert_eq!(buf[1], 7u8);
}

#[test]
fn cown_takes_over_shared_pages_only() {
    let mut k = Kernel::new();
    let fs = Fs::new();
    let mut parent = MemorySet::new_bare(&mut k);
    assert_eq!(parent.mmap(&mut k, 0x5000, 0x6000, rwu()), 0);
    // a lazy page cannot be owned
    assert!(!parent.cown(&mut k, 5));
    assert_eq!(parent.page_fault(&mut k, &fs, PageFault::new(PageFaultType::Store, 0x5000)), 0);
    // an owned page is not shared
    assert!(!parent.cown(&mut k, 5));
    // share it into another table, then take it back pro-actively
    let child = MemorySet::new_bare(&mut k);
    let parent_key = rvkern::kernel::pte_key(parent.pt, 5);
    let child_key = rvkern::kernel::pte_key(child.pt, 5);
    k.create_force(child_key);
    let ph = MFrameHandle { key: parent_key };
    ph.share_cow(&mut k, child_key);
    assert!(!k.ptes.get(parent_key).unwrap().w);
    assert!(parent.cown(&mut k, 5));
    assert!(k.ptes.get(parent_key).unwrap().w);
    // an uncovered page reports false
    assert!(!parent.cown(&mut k, 0x999));
}

#[test]
fn from_segments_builds_the_user_layout() {
    let mut k = Kernel::new();
    let mut fs = Fs::new();
    let root = Inode::new(0);
    let img = root.create(&mut fs, &b"app".to_vec()).unwrap();
    let mut text = vec![0u8; 2 * rvkern::cfg::PAGE_SIZE];
    text[0] = 0x13;
    img.write_at(&mut fs, 0, &text);
    let segs = vec![
        Segment {
            start_va: 0x10000,
            end_va: 0x12000,
            perm: Perm { r: true, w: false, x: true, u: true },
            file_offset: 0,
        },
        Segment {
            start_va: 0x20000,
            end_va: 0x21000,
            perm: Perm { r: true, w: true, x: false, u: true },
            file_offset: 0x1000,
        },
    ];
    let (mut ms, user_sp, entry) = MemorySet::from_segments(&mut k, img, &segs, 0x10000).unwrap();
    assert_eq!(entry, 0x10000);
    // two segments plus the user stack
    assert_eq!(ms.areas.len(), 3);
    assert!(matches!(ms.areas[0].map_type, MapType::FilePriv));
    assert!(ms.areas[0].map_perm.x && !ms.areas[0].map_perm.w);
    assert!(ms.areas[1].map_perm.w && !ms.areas[1].map_perm.x);
    let stack = &ms.areas[2];
    assert!(matches!(stack.map_type, MapType::Framed));
    assert_eq!(user_sp, stack.end_vpn * rvkern::cfg::PAGE_SIZE);
    // the guard page right below the stack is unmapped
    assert!(ms.translate(&k, stack.start_vpn - 1).is_none());
    // a fetch from the text segment faults the page in from the image
    assert_eq!(ms.page_fault(&mut k, &fs, PageFault::new(PageFaultType::Instruction, 0x10000)), 0);
    let pte = ms.translate(&k, 0x10).unwrap();
    assert!(pte.v && pte.x);
    assert_eq!(k.pool.get(pte.ppn).unwrap().bytes[0], 0x13);
}
