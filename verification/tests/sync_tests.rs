//! Deadlock detection and the synchronization-syscall decisions.

use std::cell::Cell;
use std::rc::Rc;

use rvkern::deadlock::{DeadlockDetection, LockRelease};
use rvkern::kernel::Kernel;
use rvkern::memory_set::{MapType, MemorySet, PageFault, PageFaultType};
use rvkern::syscall::sys_mmap;
use rvkern::vfs::{Fs, Inode};
use rvkern::syscall::{
    sys_condvar_create, sys_enable_deadlock_detect, sys_mutex_create, sys_mutex_lock,
    sys_semaphore_create, sys_semaphore_down, sys_semaphore_up, sys_set_priority, sys_sleep,
    ProcessSync, TimeVal,
};

/// A semaphore stand-in that counts how often it was released.
#[derive(Clone)]
struct CountingSem(Rc<Cell<usize>>);

impl LockRelease for CountingSem {
    fn up(&self) {
        self.0.set(self.0.get() + 1);
    }
}

fn sem() -> CountingSem {
    CountingSem(Rc::new(Cell::new(0)))
}

fn fresh() -> ProcessSync<u32, CountingSem> {
    ProcessSync {
        deadlock_detection: false,
        mutex_list: Vec::new(),
        mutex_sync: DeadlockDetection::new(Vec::new()),
        sem_lock: DeadlockDetection::new(Vec::new()),
        condvar_count: 0,
    }
}

#[test]
fn mutex_slots_reuse_freed_ids() {
    let mut ps = fresh();
    assert_eq!(sys_mutex_create(&mut ps, 10), 0);
    assert_eq!(sys_mutex_create(&mut ps, 11), 1);
    ps.mutex_list[0] = None;
    assert_eq!(sys_mutex_create(&mut ps, 12), 0);
    assert_eq!(sys_mutex_create(&mut ps, 13), 2);
}

#[test]
fn condvar_ids_count_up() {
    let mut ps = fresh();
    assert_eq!(sys_condvar_create(&mut ps), 0);
    assert_eq!(sys_condvar_create(&mut ps), 1);
}

#[test]
fn detection_flag_follows_syscall() {
    let mut ps = fresh();
    assert_eq!(sys_enable_deadlock_detect(&mut ps, 1), 0);
    assert!(ps.deadlock_detection);
    assert_eq!(sys_enable_deadlock_detect(&mut ps, 0), 0);
    assert!(!ps.deadlock_detection);
}

#[test]
fn semaphore_deadlock_is_refused() {
    let mut ps = fresh();
    sys_enable_deadlock_detect(&mut ps, 1);
    // one semaphore with a single unit
    let id = sys_semaphore_create(&mut ps, 0, 1, sem());
    assert_eq!(id, 0);
    // task 0 takes the unit
    assert_eq!(sys_semaphore_down(&mut ps, 0, 0), 0);
    ps.sem_lock.post_wait_succ(0, 0);
    // task 1 may wait: task 0 can still finish and release
    assert_eq!(sys_semaphore_down(&mut ps, 1, 0), 0);
    ps.sem_lock.post_wait_fail(1, 0);
    // task 0 asking for a second unit would deadlock: nobody can release
    assert_eq!(sys_semaphore_down(&mut ps, 1, 0), 0);
}

#[test]
fn semaphore_up_releases_through_the_lock() {
    let mut ps = fresh();
    sys_enable_deadlock_detect(&mut ps, 1);
    let s = sem();
    let counter = s.0.clone();
    assert_eq!(sys_semaphore_create(&mut ps, 0, 2, s), 0);
    assert_eq!(sys_semaphore_down(&mut ps, 0, 0), 0);
    ps.sem_lock.post_wait_succ(0, 0);
    assert_eq!(ps.sem_lock.avail[0], 1);
    assert_eq!(sys_semaphore_up(&mut ps, 0, 0), 0);
    assert_eq!(counter.get(), 1);
    assert_eq!(ps.sem_lock.avail[0], 2);
}

#[test]
fn banker_reports_cycle() {
    let mut d: DeadlockDetection<CountingSem> = DeadlockDetection::new(vec![
        Some(sem()),
        Some(sem()),
    ]);
    d.prepare_lock_state(2, 2);
    d.avail = vec![1, 1];
    // task 0 holds lock 0, task 1 holds lock 1
    d.pre_wait(0, 0);
    d.post_wait_succ(0, 0);
    d.pre_wait(1, 1);
    d.post_wait_succ(1, 1);
    // no cycle yet
    assert!(!d.has_deadlock());
    // each now waits for the other's lock
    assert!(d.has_deadlock_if_wait_for(0, 1) == false);
    d.pre_wait(0, 1);
    assert!(d.has_deadlock_if_wait_for(1, 0));
}

#[test]
fn mutex_lock_detection_path() {
    let mut ps = fresh();
    sys_enable_deadlock_detect(&mut ps, 1);
    sys_mutex_create(&mut ps, 7u32);
    // an uncontended mutex may be taken
    assert_eq!(sys_mutex_lock(&mut ps, 0, 0), 0);
}

#[test]
fn release_all_locks_returns_units() {
    let mut d: DeadlockDetection<CountingSem> = DeadlockDetection::new(vec![Some(sem())]);
    d.prepare_lock_state(1, 1);
    d.avail = vec![3];
    d.pre_wait(0, 0);
    d.post_wait_succ(0, 0);
    d.pre_wait(0, 0);
    d.post_wait_succ(0, 0);
    assert_eq!(d.avail[0], 1);
    assert_eq!(d.alloc[0][0], 2);
    d.release_all_locks(0);
    assert_eq!(d.avail[0], 3);
    assert_eq!(d.alloc[0][0], 0);
}

#[test]
fn small_decisions() {
    assert_eq!(sys_sleep(100, 50), 150);
    let mut prio: isize = 16;
    assert_eq!(sys_set_priority(&mut prio, 1), -1);
    assert_eq!(prio, 16);
    assert_eq!(sys_set_priority(&mut prio, 5), 5);
    assert_eq!(prio, 5);
    let t = TimeVal::from_us(3_500_000);
    assert_eq!((t.sec, t.usec), (3, 500_000));
}

#[test]
fn mmap_syscall_validates_arguments() {
    let mut k = Kernel::new();
    let mut ms = MemorySet::new_bare(&mut k);
    // misaligned start, misaligned offset, bad protection bits
    assert_eq!(sys_mmap(&mut ms, &mut k, 0x1001, 0x1000, 3, None, 0, false), -1);
    assert_eq!(sys_mmap(&mut ms, &mut k, 0x1000, 0x1000, 3, None, 7, false), -1);
    assert_eq!(sys_mmap(&mut ms, &mut k, 0x1000, 0x1000, 0, None, 0, false), -1);
    assert_eq!(sys_mmap(&mut ms, &mut k, 0x1000, 0x1000, 8, None, 0, false), -1);
    // an empty range is an argument error
    assert_eq!(sys_mmap(&mut ms, &mut k, 0x1000, 0, 3, None, 0, false), -1);
    // a valid anonymous request maps user pages
    assert_eq!(sys_mmap(&mut ms, &mut k, 0x1000, 0x1000, 3, None, 0, false), 0);
    let pte_area = &ms.areas[0];
    assert!(pte_area.map_perm.u && pte_area.map_perm.r && pte_area.map_perm.w);
    assert!(!pte_area.map_perm.x);
}

#[test]
fn mmap_syscall_maps_files() {
    let mut k = Kernel::new();
    let mut fs = Fs::new();
    let root = Inode::new(0);
    let f = root.create(&mut fs, &b"m".to_vec()).unwrap();
    let mut data = vec![3u8; rvkern::cfg::PAGE_SIZE];
    data[0] = 42;
    f.write_at(&mut fs, 0, &data);
    let mut ms = MemorySet::new_bare(&mut k);
    assert_eq!(sys_mmap(&mut ms, &mut k, 0x4000, 0x1000, 3, Some(f), 0, true), 0);
    assert!(matches!(ms.areas[0].map_type, MapType::FileShared));
    assert_eq!(ms.page_fault(&mut k, &fs, PageFault::new(PageFaultType::Load, 0x4000)), 0);
    let pte = ms.translate(&k, 4).unwrap();
    assert_eq!(k.pool.get(pte.ppn).unwrap().bytes[0], 42);
}
