//! Virtual-memory behavior: lazy mapping, faulting, copy-on-write.

use rvkern::cfg::PAGE_SIZE;
use rvkern::kernel::Kernel;
use rvkern::memory_set::{MapType, MemorySet, PageFault, PageFaultType};
use rvkern::pte::Perm;

fn rwu() -> Perm {
    Perm { r: true, w: true, x: false, u: true }
}

#[test]
fn mmap_creates_lazy_area() {
    let mut k = Kernel::new();
    let mut ms = MemorySet::new_bare(&mut k);
    let r = ms.mmap(&mut k, 0x80000000, 0x80004000, rwu());
    assert_eq!(r, 0);
    // four lazy pages: entries exist but are invalid, no frame allocated
    assert_eq!(k.next_ppn, 0);
    for i in 0..4usize {
        let pte = ms.translate(&k, 0x80000 + i).unwrap();
        assert!(!pte.v);
    }
    assert!(ms.translate(&k, 0x7FFFF).is_none());
}

#[test]
fn mmap_rejects_overlap() {
    let mut k = Kernel::new();
    let mut ms = MemorySet::new_bare(&mut k);
    assert_eq!(ms.mmap(&mut k, 0x1000, 0x3000, rwu()), 0);
    assert_eq!(ms.mmap(&mut k, 0x2000, 0x4000, rwu()), -1);
    assert_eq!(ms.mmap(&mut k, 0x3000, 0x5000, rwu()), 0);
}

#[test]
fn mmap_rejects_critical_pages() {
    let mut k = Kernel::new();
    let mut ms = MemorySet::new_bare(&mut k);
    let trap_cx = (rvkern::cfg::TRAP_CONTEXT_VPN) * PAGE_SIZE;
    assert_eq!(ms.mmap(&mut k, trap_cx, trap_cx + PAGE_SIZE, rwu()), -1);
    // a range reaching into the critical pages from below is refused too
    assert_eq!(ms.mmap(&mut k, trap_cx - PAGE_SIZE, trap_cx + PAGE_SIZE, rwu()), -1);
    assert_eq!(ms.mmap(&mut k, trap_cx - PAGE_SIZE, trap_cx, rwu()), 0);
}

#[test]
fn two_spaces_are_independent() {
    let mut k = Kernel::new();
    let mut a = MemorySet::new_bare(&mut k);
    let mut b = MemorySet::new_bare(&mut k);
    assert_eq!(a.mmap(&mut k, 0x1000, 0x2000, rwu()), 0);
    // the same range is free in the other space
    assert_eq!(b.mmap(&mut k, 0x1000, 0x2000, rwu()), 0);
    assert!(a.translate(&k, 1).is_some());
    assert!(b.translate(&k, 1).is_some());
}

#[test]
fn split_and_merge_restore_an_area() {
    let mut k = Kernel::new();
    let fs = rvkern::vfs::Fs::new();
    let mut ms = MemorySet::new_bare(&mut k);
    assert_eq!(ms.mmap(&mut k, 0, 10 * PAGE_SIZE, rwu()), 0);
    // fault two pages in so the halves carry different record states
    assert_eq!(ms.page_fault(&mut k, &fs, PageFault::new(PageFaultType::Store, PAGE_SIZE)), 0);
    assert_eq!(ms.page_fault(&mut k, &fs, PageFault::new(PageFaultType::Store, 8 * PAGE_SIZE)), 0);
    let area = ms.areas.pop().unwrap();
    let (l, r) = area.split(3);
    assert_eq!((l.start_vpn, l.end_vpn), (0, 3));
    assert_eq!((r.start_vpn, r.end_vpn), (3, 10));
    assert_eq!(l.map_perm, r.map_perm);
    // record maps went with their halves
    assert!(l.pages.get(1).is_some());
    assert!(l.pages.get(8).is_none());
    assert!(r.pages.get(8).is_some());
    let m = l.merge(r);
    assert_eq!((m.start_vpn, m.end_vpn), (0, 10));
    for v in 0..10u64 {
        assert!(m.pages.get(v).is_some());
    }
    ms.areas.push(m);
    // the restored area still resolves faults
    assert_eq!(ms.page_fault(&mut k, &fs, PageFault::new(PageFaultType::Load, 5 * PAGE_SIZE)), 0);
}

#[test]
fn split_middle_releases_cleanly() {
    // a ten-page area cut at pages 3 and 7: the middle is released, the
    // outer parts keep their policy and records
    let mut k = Kernel::new();
    let mut ms = MemorySet::new_bare(&mut k);
    assert_eq!(ms.mmap(&mut k, 0, 10 * PAGE_SIZE, rwu()), 0);
    let area = ms.areas.pop().unwrap();
    let (l, rest) = area.split(3);
    let (mid, r) = rest.split(7);
    assert_eq!((mid.start_vpn, mid.end_vpn), (3, 7));
    mid.release(&mut k, ms.pt);
    for v in 3..7usize {
        let key = rvkern::kernel::pte_key(ms.pt, v);
        assert!(k.frames.get(key).is_none());
    }
    ms.areas.push(l);
    ms.areas.push(r);
    assert!(ms.translate(&k, 1).is_some());
    assert!(ms.covered(2) && !ms.covered(5) && ms.covered(8));
}

#[test]
fn munmap_drops_a_whole_area() {
    let mut k = Kernel::new();
    let mut ms = MemorySet::new_bare(&mut k);
    assert_eq!(ms.mmap(&mut k, 0x1000, 0x3000, rwu()), 0);
    assert_eq!(ms.munmap(&mut k, 0x1000, 0x3000), 0);
    // the entries survive only invalidated
    assert!(!ms.translate(&k, 1).unwrap().v);
    assert!(!ms.translate(&k, 2).unwrap().v);
    // the range is free again
    assert_eq!(ms.mmap(&mut k, 0x1000, 0x3000, rwu()), 0);
}

#[test]
fn munmap_rejects_holes_and_is_then_a_no_op() {
    let mut k = Kernel::new();
    let mut ms = MemorySet::new_bare(&mut k);
    assert_eq!(ms.mmap(&mut k, 0x1000, 0x2000, rwu()), 0);
    // page 2 is unmapped: the whole request is refused
    assert_eq!(ms.munmap(&mut k, 0x1000, 0x3000), -1);
    assert!(ms.translate(&k, 1).is_some());
}

#[test]
fn munmap_splits_a_straddling_area() {
    let mut k = Kernel::new();
    let mut ms = MemorySet::new_bare(&mut k);
    assert_eq!(ms.mmap(&mut k, 0x1000, 0x5000, rwu()), 0);
    // resolve one page outside and one inside the range to be cut
    assert_eq!(ms.page_fault(&mut k, &rvkern::vfs::Fs::new(), PageFault::new(PageFaultType::Store, 0x1000)), 0);
    assert_eq!(ms.page_fault(&mut k, &rvkern::vfs::Fs::new(), PageFault::new(PageFaultType::Store, 0x2000)), 0);
    assert_eq!(ms.munmap(&mut k, 0x2000, 0x4000), 0);
    // the faulted page outside the cut still maps its frame, the cut
    // pages are invalid again
    assert!(ms.translate(&k, 1).unwrap().v);
    assert!(!ms.translate(&k, 2).unwrap().v);
    assert!(!ms.translate(&k, 3).unwrap().v);
    assert!(!ms.translate(&k, 4).unwrap().v);
    // the middle can be mapped anew
    assert_eq!(ms.mmap(&mut k, 0x2000, 0x4000, rwu()), 0);
}

#[test]
fn munmap_of_an_empty_range_changes_nothing() {
    let mut k = Kernel::new();
    let mut ms = MemorySet::new_bare(&mut k);
    assert_eq!(ms.mmap(&mut k, 0x1000, 0x2000, rwu()), 0);
    assert_eq!(ms.munmap(&mut k, 0x4000, 0x4000), 0);
    assert!(ms.translate(&k, 1).is_some());
}

#[test]
fn mmap_munmap_round_trip_restores_coverage() {
    let mut k = Kernel::new();
    let mut ms = MemorySet::new_bare(&mut k);
    assert_eq!(ms.mmap(&mut k, 0x5000, 0x7000, rwu()), 0);
    let before = ms.areas.len();
    assert_eq!(ms.mmap(&mut k, 0x9000, 0xB000, rwu()), 0);
    assert_eq!(ms.munmap(&mut k, 0x9000, 0xB000), 0);
    // the area count and the survivor's coverage are as before
    assert_eq!(ms.areas.len(), before);
    assert!(ms.translate(&k, 5).is_some());
    // the unmapped range is free to map again
    assert_eq!(ms.mmap(&mut k, 0x9000, 0xB000, rwu()), 0);
}

#[test]
fn mmap_rejects_an_empty_range() {
    let mut k = Kernel::new();
    let mut ms = MemorySet::new_bare(&mut k);
    assert_eq!(ms.mmap(&mut k, 0x1000, 0x1000, rwu()), -1);
    assert_eq!(ms.mmap(&mut k, 0x2000, 0x1000, rwu()), -1);
    assert!(ms.translate(&k, 1).is_none());
}

#[test]
fn sys_munmap_validates_and_delegates() {
    let mut k = Kernel::new();
    let mut ms = MemorySet::new_bare(&mut k);
    assert_eq!(ms.mmap(&mut k, 0x1000, 0x3000, rwu()), 0);
    // misaligned start is refused without touching the space
    assert_eq!(rvkern::syscall::sys_munmap(&mut ms, &mut k, 0x1001, 0x1000), -1);
    assert!(ms.translate(&k, 1).is_some());
    // an aligned request unmaps the pages
    assert_eq!(rvkern::syscall::sys_munmap(&mut ms, &mut k, 0x1000, 0x2000), 0);
    assert_eq!(ms.mmap(&mut k, 0x1000, 0x3000, rwu()), 0);
}

#[test]
fn new_kernel_maps_sections_identically() {
    let mut k = Kernel::new();
    let sections = vec![
        (0x80200000usize, 0x80220000usize, Perm { r: true, w: false, x: true, u: false }),
        (0x80220000usize, 0x80240000usize, Perm { r: true, w: true, x: false, u: false }),
    ];
    let ms = MemorySet::new_kernel(&mut k, &sections).unwrap();
    assert_eq!(ms.areas.len(), 2);
    assert!(matches!(ms.areas[0].map_type, MapType::Identity));
    // an identity page maps to itself, valid, with the section's bits
    let vpn = 0x80200000 / rvkern::cfg::PAGE_SIZE;
    let pte = ms.translate(&k, vpn).unwrap();
    assert!(pte.v && pte.x && !pte.w && !pte.u);
    assert_eq!(pte.ppn, vpn as u64);
    // no frame is consumed: identity pages carry no tracker record
    assert_eq!(k.next_ppn, 0);
    // overlapping sections are refused
    let bad = vec![
        (0x1000usize, 0x3000usize, Perm { r: true, w: true, x: false, u: false }),
        (0x2000usize, 0x4000usize, Perm { r: true, w: true, x: false, u: false }),
    ];
    assert!(MemorySet::new_kernel(&mut k, &bad).is_none());
}
