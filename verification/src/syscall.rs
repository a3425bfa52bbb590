//! The decisions of the synchronization syscalls: slot allocation for
//! mutexes, semaphores and condition variables, and the deadlock-detector
//! bookkeeping around blocking. The blocking itself—taking a mutex,
//! downing a semaphore, waiting on a condition variable—happens outside;
//! callers perform the action these functions decide on and report the
//! outcome back through the detector's own operations.

use vstd::prelude::*;
use crate::deadlock::{DeadlockDetection, LockRelease};

verus! {

/// A time value split into seconds and microseconds, as handed to user
/// space.
#[derive(Clone, Copy, PartialEq, Eq, Structural, Debug)]
pub struct TimeVal {
    pub sec: usize,
    pub usec: usize,
}

impl TimeVal {
    /// Splits a microsecond count.
    pub fn from_us(us: usize) -> (t: TimeVal)
        ensures
            t.sec == us / 1000000,
            t.usec == us % 1000000,
    {
        TimeVal { sec: us / 1000000, usec: us % 1000000 }
    }
}

/// The synchronization state of one process: its lock tables and the
/// deadlock-detection switch.
pub struct ProcessSync<M, S: LockRelease> {
    pub deadlock_detection: bool,
    pub mutex_list: Vec<Option<M>>,
    /// Detector over the mutex table.
    pub mutex_sync: DeadlockDetection<S>,
    /// Detector over the semaphore table.
    pub sem_lock: DeadlockDetection<S>,
    pub condvar_count: usize,
}

/// Every slot below `r` is taken.
pub open spec fn slots_full<A>(l: Seq<Option<A>>, r: int) -> bool {
    forall|j: int| 0 <= j < r ==> (#[trigger] l[j]) is Some
}

/// Stores `item` in the lowest free slot of `list`, growing the list when
/// none is free, and returns the slot's index.
fn slot_alloc<A>(list: &mut Vec<Option<A>>, item: A) -> (r: usize)
    requires
        old(list)@.len() < usize::MAX,
    ensures
        r <= old(list)@.len(),
        slots_full(old(list)@, r as int),
        r < old(list)@.len() ==> old(list)@[r as int] is None && final(list)@ == old(list)@.update(
            r as int,
            Some(item),
        ),
        r == old(list)@.len() ==> final(list)@ == old(list)@.push(Some(item)),
{
    let mut i: usize = 0;
    while i < list.len()
        invariant
            i <= list@.len(),
            list@ == old(list)@,
            slots_full(list@, i as int),
        decreases list@.len() - i,
    {
        if list[i].is_none() {
            list[i] = Some(item);
            return i;
        }
        i = i + 1;
    }
    list.push(Some(item));
    i
}

/// Allocates a slot for a new mutex and returns its id.
pub fn sys_mutex_create<M, S: LockRelease>(ps: &mut ProcessSync<M, S>, mutex: M) -> (r: isize)
    requires
        old(ps).mutex_list@.len() < 0x1000000,
    ensures
        final(ps).deadlock_detection == old(ps).deadlock_detection,
        final(ps).sem_lock == old(ps).sem_lock,
        final(ps).mutex_sync == old(ps).mutex_sync,
        final(ps).condvar_count == old(ps).condvar_count,
        0 <= r <= old(ps).mutex_list@.len(),
        slots_full(old(ps).mutex_list@, r as int),
        r < old(ps).mutex_list@.len() ==> old(ps).mutex_list@[r as int] is None && final(ps).mutex_list@ == old(ps).mutex_list@.update(r as int, Some(mutex)),
        r == old(ps).mutex_list@.len() ==> final(ps).mutex_list@ == old(ps).mutex_list@.push(
            Some(mutex),
        ),
{
    let id = slot_alloc(&mut ps.mutex_list, mutex);
    id as isize
}

/// Decides a mutex-lock request: with detection on, refuses a wait that
/// would deadlock; otherwise the caller proceeds to take the mutex.
pub fn sys_mutex_lock<M, S: LockRelease>(ps: &mut ProcessSync<M, S>, tid: usize, mutex_id: usize) -> (r:
    isize)
    requires
        mutex_id < old(ps).mutex_list@.len(),
        old(ps).mutex_list@[mutex_id as int] is Some,
        tid < usize::MAX,
        mutex_id < usize::MAX,
    ensures
        r == 0 || r == -0xDEAD,
        !old(ps).deadlock_detection ==> r == 0 && *final(ps) == *old(ps),
        final(ps).deadlock_detection == old(ps).deadlock_detection,
        final(ps).mutex_list@ == old(ps).mutex_list@,
        final(ps).sem_lock == old(ps).sem_lock,
        final(ps).condvar_count == old(ps).condvar_count,
        final(ps).mutex_sync.locks@ == old(ps).mutex_sync.locks@,
        final(ps).mutex_sync.avail@ == old(ps).mutex_sync.avail@,
        r == -0xDEAD ==> old(ps).deadlock_detection && exists|t: int, j: int|
            0 <= t < final(ps).mutex_sync.q@.len() && 0 <= j < (
            #[trigger] final(ps).mutex_sync.q@[t])@.len() && ((
            #[trigger] final(ps).mutex_sync.q@[t]@[j]) as int) + (if t == tid && j == mutex_id {
                1int
            } else {
                0int
            }) > (if j < final(ps).mutex_sync.avail@.len() {
                final(ps).mutex_sync.avail@[j] as int
            } else {
                0int
            }),
        old(ps).deadlock_detection ==> (r == -0xDEAD <==> ({
            let qf = crate::deadlock::rows_of(final(ps).mutex_sync.q@);
            tid < qf.len() && mutex_id < qf[tid as int].len() && (qf[tid as int][mutex_id as int]
                == usize::MAX as int || crate::deadlock::spec_banker_stuck(
                crate::deadlock::bump(qf, tid as int, mutex_id as int),
                crate::deadlock::rows_of(final(ps).mutex_sync.alloc@),
                crate::deadlock::work_of(final(ps).mutex_sync.avail@),
                crate::deadlock::falses(final(ps).mutex_sync.alloc@.len()),
            ))
        })),
{
    if ps.deadlock_detection {
        if ps.mutex_sync.has_deadlock_if_wait_for(tid, mutex_id) {
            proof {
                let (t, j) = choose|t: int, j: int|
                    0 <= t < ps.mutex_sync.q@.len() && 0 <= j < (
                    #[trigger] ps.mutex_sync.q@[t])@.len() && ((
                    #[trigger] ps.mutex_sync.q@[t]@[j]) as int) + (if t == tid && j == mutex_id {
                        1int
                    } else {
                        0int
                    }) > (if j < ps.mutex_sync.avail@.len() {
                        ps.mutex_sync.avail@[j] as int
                    } else {
                        0int
                    });
                assert(0 <= t < ps.mutex_sync.q@.len() && 0 <= j < ps.mutex_sync.q@[t]@.len());
            }
            return -0xDEAD;
        }
    }
    0
}

/// Notes a mutex release; the caller then unlocks the mutex itself.
pub fn sys_mutex_unlock<M, S: LockRelease>(ps: &mut ProcessSync<M, S>, tid: usize, mutex_id: usize) -> (r:
    isize)
    requires
        mutex_id < old(ps).mutex_list@.len(),
        old(ps).mutex_list@[mutex_id as int] is Some,
        tid < usize::MAX,
        mutex_id < usize::MAX,
        old(ps).deadlock_detection ==> tid < old(ps).mutex_sync.alloc@.len() && mutex_id < old(ps).mutex_sync.alloc@[tid as int]@.len() && old(ps).mutex_sync.alloc@[tid as int]@[mutex_id as int] > 0,
    ensures
        r == 0,
        final(ps).deadlock_detection == old(ps).deadlock_detection,
        final(ps).mutex_list@ == old(ps).mutex_list@,
        final(ps).sem_lock == old(ps).sem_lock,
        final(ps).condvar_count == old(ps).condvar_count,
        !old(ps).deadlock_detection ==> *final(ps) == *old(ps),
{
    if ps.deadlock_detection {
        ps.mutex_sync.pre_release(tid, mutex_id);
    }
    0
}

/// Allocates a slot for a new semaphore with `res_count` units and
/// returns its id; with detection on, the available pool records the
/// units.
pub fn sys_semaphore_create<M, S: LockRelease>(
    ps: &mut ProcessSync<M, S>,
    tid: usize,
    res_count: usize,
    sem: S,
) -> (r: isize)
    requires
        old(ps).sem_lock.locks@.len() < 0x1000000,
        tid < usize::MAX,
        old(ps).sem_lock.avail@.len() == old(ps).sem_lock.locks@.len(),
    ensures
        final(ps).deadlock_detection == old(ps).deadlock_detection,
        final(ps).mutex_list@ == old(ps).mutex_list@,
        final(ps).mutex_sync == old(ps).mutex_sync,
        final(ps).condvar_count == old(ps).condvar_count,
        0 <= r <= old(ps).sem_lock.locks@.len(),
        slots_full(old(ps).sem_lock.locks@, r as int),
        r < old(ps).sem_lock.locks@.len() ==> old(ps).sem_lock.locks@[r as int] is None
            && final(ps).sem_lock.locks@ == old(ps).sem_lock.locks@.update(r as int, Some(sem)),
        r == old(ps).sem_lock.locks@.len() ==> final(ps).sem_lock.locks@ == old(ps).sem_lock.locks@.push(Some(sem)),
        old(ps).deadlock_detection ==> final(ps).sem_lock.avail@.len() >= old(ps).sem_lock.avail@.len() && final(ps).sem_lock.avail@[r as int] == res_count,
        !old(ps).deadlock_detection ==> final(ps).sem_lock.avail@ == old(ps).sem_lock.avail@,
{
    let detection = ps.deadlock_detection;
    let id = slot_alloc(&mut ps.sem_lock.locks, sem);
    if detection {
        ps.sem_lock.prepare_lock_state(tid + 1, id + 1);
        if id < ps.sem_lock.avail.len() {
            ps.sem_lock.avail[id] = res_count;
        } else {
            ps.sem_lock.avail.push(res_count);
        }
    }
    id as isize
}

/// Releases one unit of a semaphore: the detector notes the release and
/// the unit is handed back through the semaphore itself.
pub fn sys_semaphore_up<M, S: LockRelease>(ps: &mut ProcessSync<M, S>, tid: usize, sem_id: usize) -> (r:
    isize)
    requires
        sem_id < old(ps).sem_lock.locks@.len(),
        old(ps).sem_lock.locks@[sem_id as int] is Some,
        tid < usize::MAX,
        sem_id < usize::MAX,
        old(ps).deadlock_detection ==> tid < old(ps).sem_lock.alloc@.len() && sem_id < old(ps).sem_lock.alloc@[tid as int]@.len() && old(ps).sem_lock.alloc@[tid as int]@[sem_id as int]
            > 0 && sem_id < old(ps).sem_lock.avail@.len() && old(ps).sem_lock.avail@[sem_id as int]
            < usize::MAX,
    ensures
        r == 0,
        final(ps).deadlock_detection == old(ps).deadlock_detection,
        final(ps).mutex_list@ == old(ps).mutex_list@,
        final(ps).mutex_sync == old(ps).mutex_sync,
        final(ps).condvar_count == old(ps).condvar_count,
        final(ps).sem_lock.locks@ == old(ps).sem_lock.locks@,
        old(ps).deadlock_detection ==> final(ps).sem_lock.avail@ == old(ps).sem_lock.avail@.update(sem_id as int, (old(ps).sem_lock.avail@[sem_id as int] + 1) as usize),
        !old(ps).deadlock_detection ==> *final(ps) == *old(ps),
{
    let detection = ps.deadlock_detection;
    if detection {
        ps.sem_lock.pre_release(tid, sem_id);
    }
    match &ps.sem_lock.locks[sem_id] {
        Some(s) => s.up(),
        None => {
            proof {
                assert(false);
            }
        },
    }
    if detection {
        ps.sem_lock.post_release(tid, sem_id);
    }
    0
}

/// Decides a semaphore-down request: with detection on, a wait that would
/// deadlock is refused and nothing is recorded; otherwise the wait is
/// recorded and the caller proceeds to block, reporting success or
/// failure back to the detector.
pub fn sys_semaphore_down<M, S: LockRelease>(ps: &mut ProcessSync<M, S>, tid: usize, sem_id: usize) -> (r:
    isize)
    requires
        sem_id < old(ps).sem_lock.locks@.len(),
        old(ps).sem_lock.locks@[sem_id as int] is Some,
        tid < usize::MAX,
        sem_id < usize::MAX,
    ensures
        r == 0 || r == -0xDEAD,
        final(ps).deadlock_detection == old(ps).deadlock_detection,
        final(ps).mutex_list@ == old(ps).mutex_list@,
        final(ps).mutex_sync == old(ps).mutex_sync,
        final(ps).condvar_count == old(ps).condvar_count,
        final(ps).sem_lock.locks@ == old(ps).sem_lock.locks@,
        final(ps).sem_lock.avail@ == old(ps).sem_lock.avail@,
        !old(ps).deadlock_detection ==> r == 0 && *final(ps) == *old(ps),
        r == -0xDEAD ==> old(ps).deadlock_detection && exists|t: int, j: int|
            0 <= t < final(ps).sem_lock.q@.len() && 0 <= j < (
            #[trigger] final(ps).sem_lock.q@[t])@.len() && ((
            #[trigger] final(ps).sem_lock.q@[t]@[j]) as int) + (if t == tid && j == sem_id {
                1int
            } else {
                0int
            }) > (if j < final(ps).sem_lock.avail@.len() {
                final(ps).sem_lock.avail@[j] as int
            } else {
                0int
            }),
        (r == 0 && old(ps).deadlock_detection) ==> ({
            let oq = old(ps).sem_lock.q@;
            let base: int = if tid < oq.len() && sem_id < oq[tid as int]@.len() {
                oq[tid as int]@[sem_id as int] as int
            } else {
                0int
            };
            tid < final(ps).sem_lock.q@.len() && sem_id < final(ps).sem_lock.q@[tid as int]@.len()
                && final(ps).sem_lock.q@[tid as int]@[sem_id as int] == base + 1
        }),
        old(ps).deadlock_detection ==> (r == -0xDEAD <==> ({
            let qf = crate::deadlock::rows_of(final(ps).sem_lock.q@);
            let qd = if r == 0 {
                qf.update(
                    tid as int,
                    qf[tid as int].update(sem_id as int, qf[tid as int][sem_id as int] - 1),
                )
            } else {
                qf
            };
            qd[tid as int][sem_id as int] == usize::MAX as int || crate::deadlock::spec_banker_stuck(
                crate::deadlock::bump(qd, tid as int, sem_id as int),
                crate::deadlock::rows_of(final(ps).sem_lock.alloc@),
                crate::deadlock::work_of(final(ps).sem_lock.avail@),
                crate::deadlock::falses(final(ps).sem_lock.alloc@.len()),
            )
        })),
{
    if ps.deadlock_detection {
        ps.sem_lock.prepare_lock_state(tid + 1, sem_id + 1);
        let ghost ext = ps.sem_lock.q@;
        if ps.sem_lock.has_deadlock_if_wait_for(tid, sem_id) {
            return -0xDEAD;
        }
        if ps.sem_lock.q[tid][sem_id] == usize::MAX {
            proof {
                let t = tid as int;
                let j = sem_id as int;
                if j < ps.sem_lock.avail@.len() {
                    assert(ps.sem_lock.avail@[j] <= usize::MAX);
                }
                assert((ps.sem_lock.q@[t]@[j] as int) + 1 > (if j < ps.sem_lock.avail@.len() {
                    ps.sem_lock.avail@[j] as int
                } else {
                    0int
                }));
            }
            return -0xDEAD;
        }
        let ghost qpad = ps.sem_lock.q@;
        proof {
            assert(ps.sem_lock.q@[tid as int]@[sem_id as int] == ext[tid as int]@[sem_id as int]);
        }
        ps.sem_lock.pre_wait(tid, sem_id);
        proof {
            let qf = crate::deadlock::rows_of(ps.sem_lock.q@);
            let qd = qf.update(
                tid as int,
                qf[tid as int].update(sem_id as int, qf[tid as int][sem_id as int] - 1),
            );
            assert(qd =~~= crate::deadlock::rows_of(qpad));
        }
    }
    0
}

/// Decides the unmap system call: the start must be page-aligned and the
/// range must not wrap past the address space; the rest is the address
/// space's own `munmap`.
pub fn sys_munmap(
    ms: &mut crate::memory_set::MemorySet,
    k: &mut crate::kernel::Kernel,
    start: usize,
    len: usize,
) -> (r: isize)
    requires
        old(k).wf(),
        old(ms).wf_in(*old(k)),
    ensures
        final(k).wf(),
        final(ms).wf_in(*final(k)),
        final(ms).pt == old(ms).pt,
        r == 0 || r == -1,
        (start % crate::cfg::PAGE_SIZE != 0 || len > usize::MAX - start) ==> r == -1 && *final(ms)
            == *old(ms) && *final(k) == *old(k),
        ({
            let ok = start % crate::cfg::PAGE_SIZE == 0 && len <= usize::MAX - start;
            let lo = crate::cfg::spec_vpn_of(start as int) as usize;
            let hi0 = crate::cfg::spec_vpn_up((start + len) as int) as usize;
            let hi = if hi0 > lo {
                hi0
            } else {
                lo
            };
            &&& (ok ==> (r == -1 <==> ((lo <= crate::cfg::TRAMPOLINE_VPN < hi) || (lo
                <= crate::cfg::TRAP_CONTEXT_VPN < hi) || exists|v: usize|
                lo <= v < hi && !(#[trigger] old(ms).covers(v)))))
            &&& (ok && r == 0 ==> forall|v: usize|
                lo <= v < hi ==> !final(ms).covers(v) && !final(k).frames@.contains_key(
                    #[trigger] crate::kernel::spec_pte_key(old(ms).pt, v),
                ) && !final(k).fmap@.contains_key(crate::kernel::spec_pte_key(old(ms).pt, v)))
            &&& (ok && r == -1 ==> final(ms).areas@ == old(ms).areas@ && final(k).frames@ == old(k).frames@ && final(k).ptes@ == old(k).ptes@ && final(k).fmap@ == old(k).fmap@
                && final(k).pool@ == old(k).pool@ && final(k).files@ == old(k).files@)
        }),
{
    if start % crate::cfg::PAGE_SIZE != 0 {
        return -1;
    }
    if len > usize::MAX - start {
        return -1;
    }
    ms.munmap(k, start, start + len)
}

/// Allocates a slot for a new condition variable and returns its id.
pub fn sys_condvar_create<M, S: LockRelease>(ps: &mut ProcessSync<M, S>) -> (r: isize)
    requires
        old(ps).condvar_count < 0x1000000,
    ensures
        r == old(ps).condvar_count,
        final(ps).condvar_count == old(ps).condvar_count + 1,
        final(ps).deadlock_detection == old(ps).deadlock_detection,
        final(ps).mutex_list@ == old(ps).mutex_list@,
        final(ps).mutex_sync == old(ps).mutex_sync,
        final(ps).sem_lock == old(ps).sem_lock,
{
    let id = ps.condvar_count;
    ps.condvar_count = ps.condvar_count + 1;
    id as isize
}

/// Decides a condition-variable signal: the caller then signals it.
pub fn sys_condvar_signal<M, S: LockRelease>(ps: &ProcessSync<M, S>, condvar_id: usize) -> (r: isize)
    requires
        condvar_id < ps.condvar_count,
    ensures
        r == 0,
{
    0
}

/// Decides a condition-variable wait: the caller then releases the mutex
/// and blocks on the condition variable.
pub fn sys_condvar_wait<M, S: LockRelease>(ps: &ProcessSync<M, S>, condvar_id: usize, mutex_id: usize) -> (r:
    isize)
    requires
        condvar_id < ps.condvar_count,
        mutex_id < ps.mutex_list@.len(),
        ps.mutex_list@[mutex_id as int] is Some,
    ensures
        r == 0,
{
    0
}

/// Switches deadlock detection on or off.
pub fn sys_enable_deadlock_detect<M, S: LockRelease>(ps: &mut ProcessSync<M, S>, enabled: usize) -> (r:
    isize)
    ensures
        r == 0,
        final(ps).deadlock_detection == (enabled != 0),
        final(ps).mutex_list@ == old(ps).mutex_list@,
        final(ps).mutex_sync == old(ps).mutex_sync,
        final(ps).sem_lock == old(ps).sem_lock,
        final(ps).condvar_count == old(ps).condvar_count,
{
    ps.deadlock_detection = enabled != 0;
    0
}

/// Validates and performs a memory-map request: the start address and
/// the file offset must be page-aligned, the protection bits must lie
/// within read/write/execute with at least one set; an anonymous request
/// maps fresh lazy pages, a file-backed one maps the file from `offset`,
/// shared or private. The pages are always user-accessible.
pub fn sys_mmap(
    ms: &mut crate::memory_set::MemorySet,
    k: &mut crate::kernel::Kernel,
    start: usize,
    len: usize,
    prot: usize,
    file: Option<crate::vfs::Inode>,
    offset: usize,
    shared: bool,
) -> (r: isize)
    requires
        old(k).wf(),
        old(ms).wf_in(*old(k)),
        old(k).file_rc_headroom(crate::cfg::VPN_LIMIT as nat),
    ensures
        final(k).wf(),
        final(ms).wf_in(*final(k)),
        final(ms).pt == old(ms).pt,
        r == 0 || r == -1,
        offset % crate::cfg::PAGE_SIZE != 0 ==> r == -1,
        start % crate::cfg::PAGE_SIZE != 0 ==> r == -1,
        prot == 0 || prot >= 8 ==> r == -1,
        r == -1 ==> final(ms).areas@ == old(ms).areas@,
        // for well-formed arguments the request succeeds exactly when the
        // underlying map does, and the mapped area carries the decoded
        // permission
        ({
            let ok_args = offset % crate::cfg::PAGE_SIZE == 0 && start % crate::cfg::PAGE_SIZE
                == 0 && 0 < prot < 8 && len <= usize::MAX - start;
            let p = crate::pte::Perm {
                r: prot % 2 == 1,
                w: (prot / 2) % 2 == 1,
                x: (prot / 4) % 2 == 1,
                u: true,
            };
            let lo = crate::cfg::spec_vpn_of(start as int) as usize;
            let hi0 = crate::cfg::spec_vpn_up((start + len) as int) as usize;
            let hi = if hi0 > lo {
                hi0
            } else {
                lo
            };
            &&& (ok_args && file is None ==> (r == -1 <==> (hi <= lo || (lo
                <= crate::cfg::TRAMPOLINE_VPN < hi) || (lo <= crate::cfg::TRAP_CONTEXT_VPN < hi)
                || old(ms).spec_overlaps(lo, hi))))
            &&& (ok_args && file is Some ==> (r == -1 <==> (hi <= lo
                || offset / crate::cfg::PAGE_SIZE + (hi - lo) >= 0x100000000 || offset + (hi - lo)
                * crate::cfg::PAGE_SIZE > usize::MAX || (lo <= crate::cfg::TRAMPOLINE_VPN < hi)
                || (lo <= crate::cfg::TRAP_CONTEXT_VPN < hi) || old(ms).spec_overlaps(lo, hi))))
            &&& (ok_args && r == 0 ==> {
                let a = final(ms).areas@.last();
                &&& final(ms).areas@ == old(ms).areas@.push(a)
                &&& a.start_vpn == lo
                &&& a.end_vpn == hi
                &&& a.map_perm == p
                &&& (file is None ==> a.map_type is Framed && a.file is None)
                &&& (file matches Some(ino) ==> a.file == Some(ino) && a.file_offset == offset
                    && (a.map_type == if shared {
                    crate::memory_set::MapType::FileShared
                } else {
                    crate::memory_set::MapType::FilePriv
                }))
            })
        }),
{
    if offset % crate::cfg::PAGE_SIZE != 0 {
        return -1;
    }
    if start % crate::cfg::PAGE_SIZE != 0 {
        return -1;
    }
    if prot == 0 || prot >= 8 {
        return -1;
    }
    if len > usize::MAX - start {
        return -1;
    }
    let perm = crate::pte::Perm {
        r: prot % 2 == 1,
        w: (prot / 2) % 2 == 1,
        x: (prot / 4) % 2 == 1,
        u: true,
    };
    match file {
        None => ms.mmap(k, start, start + len, perm),
        Some(inode) => ms.mmap_file(k, start, start + len, perm, inode, offset, shared),
    }
}

/// Computes the wake-up time of a sleeping task; the caller arms the
/// timer and blocks.
pub fn sys_sleep(now_ms: usize, ms: usize) -> (expire: usize)
    requires
        now_ms + ms <= usize::MAX,
    ensures
        expire == now_ms + ms,
{
    now_ms + ms
}

/// Sets a task's scheduling priority; priorities below two are refused.
pub fn sys_set_priority(task_priority: &mut isize, prio: isize) -> (r: isize)
    ensures
        prio <= 1 ==> r == -1 && *final(task_priority) == *old(task_priority),
        prio > 1 ==> r == prio && *final(task_priority) == prio,
{
    if prio <= 1 {
        return -1;
    }
    *task_priority = prio;
    prio
}

} // verus!
