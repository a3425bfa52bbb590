//! Banker's-style deadlock detection over per-task allocation and request
//! vectors, as the synchronization syscalls consult it before blocking.

use vstd::prelude::*;
use crate::counting::{lemma_wsum_le_len, lemma_wsum_member, lemma_wsum_update, wsum};

verus! {

/// A lock that the detector may release on behalf of a failed waiter.
pub trait LockRelease {
    /// Releases one unit of the lock.
    fn up(&self);
}

/// The detector's state: one slot per lock, and per task the units it
/// holds (`alloc`) and the units it waits for (`q`); `avail` counts the
/// free units per lock.
pub struct DeadlockDetection<T: LockRelease> {
    pub locks: Vec<Option<T>>,
    pub alloc: Vec<Vec<usize>>,
    pub q: Vec<Vec<usize>>,
    pub avail: Vec<usize>,
}

impl<T: LockRelease> DeadlockDetection<T> {
    /// Builds a detector over the given lock slots, with no bookkeeping
    /// rows yet.
    pub fn new(locks: Vec<Option<T>>) -> (d: DeadlockDetection<T>)
        ensures
            d.locks@ == locks@,
            d.alloc@.len() == 0,
            d.q@.len() == 0,
            d.avail@.len() == 0,
    {
        DeadlockDetection { locks, alloc: Vec::new(), q: Vec::new(), avail: Vec::new() }
    }

    /// Whether every cell of `v` is zero.
    fn all_zero(v: &Vec<usize>) -> (r: bool)
        ensures
            r == forall|i: int| 0 <= i < v@.len() ==> v@[i] == 0,
    {
        let mut i: usize = 0;
        while i < v.len()
            invariant
                i <= v@.len(),
                forall|j: int| 0 <= j < i ==> v@[j] == 0,
            decreases v@.len() - i,
        {
            if v[i] != 0 {
                return false;
            }
            i = i + 1;
        }
        true
    }

    /// Whether `v1` is pointwise at most `v2`.
    fn le_vec(v1: &Vec<usize>, v2: &Vec<usize>) -> (r: bool)
        requires
            v1@.len() == v2@.len(),
        ensures
            r == forall|i: int| 0 <= i < v1@.len() ==> v1@[i] <= v2@[i],
    {
        let mut i: usize = 0;
        while i < v1.len()
            invariant
                v1@.len() == v2@.len(),
                i <= v1@.len(),
                forall|j: int| 0 <= j < i ==> v1@[j] <= v2@[j],
            decreases v1@.len() - i,
        {
            if v1[i] > v2[i] {
                return false;
            }
            i = i + 1;
        }
        true
    }

    /// Adds `src` into `dst`, pointwise.
    fn add_to(dst: &mut Vec<usize>, src: &Vec<usize>)
        requires
            old(dst)@.len() == src@.len(),
            forall|i: int| 0 <= i < src@.len() ==> old(dst)@[i] + src@[i] <= usize::MAX,
        ensures
            final(dst)@.len() == old(dst)@.len(),
            forall|i: int| 0 <= i < src@.len() ==> final(dst)@[i] == old(dst)@[i] + src@[i],
    {
        let mut i: usize = 0;
        while i < src.len()
            invariant
                dst@.len() == src@.len(),
                i <= src@.len(),
                forall|j: int| 0 <= j < src@.len() ==> old(dst)@[j] + src@[j] <= usize::MAX,
                forall|j: int| 0 <= j < i ==> dst@[j] == old(dst)@[j] + src@[j],
                forall|j: int| i <= j < src@.len() ==> dst@[j] == old(dst)@[j],
            decreases src@.len() - i,
        {
            dst[i] = dst[i] + src[i];
            i = i + 1;
        }
    }

    /// Grows the bookkeeping to cover at least `num_tid` tasks and
    /// `num_lock` locks, padding new cells with zeros and keeping every
    /// existing count.
    pub fn prepare_lock_state(&mut self, num_tid: usize, num_lock: usize)
        ensures
            final(self).locks@ == old(self).locks@,
            final(self).avail@ == old(self).avail@,
            matrix_extended(old(self).alloc@, final(self).alloc@, num_tid as int, num_lock as int),
            matrix_extended(old(self).q@, final(self).q@, num_tid as int, num_lock as int),
    {
        let a = extended(&self.alloc, num_tid, num_lock);
        self.alloc = a;
        let b = extended(&self.q, num_tid, num_lock);
        self.q = b;
    }

    /// Notes that task `tid` starts waiting for one unit of `lock_id`.
    pub fn pre_wait(&mut self, tid: usize, lock_id: usize)
        requires
            tid < old(self).q@.len(),
            lock_id < old(self).q@[tid as int]@.len(),
            old(self).q@[tid as int]@[lock_id as int] < usize::MAX,
        ensures
            final(self).locks@ == old(self).locks@,
            final(self).alloc@ == old(self).alloc@,
            final(self).avail@ == old(self).avail@,
            final(self).q@.len() == old(self).q@.len(),
            final(self).q@[tid as int]@ == old(self).q@[tid as int]@.update(
                lock_id as int,
                (old(self).q@[tid as int]@[lock_id as int] + 1) as usize,
            ),
            forall|i: int|
                0 <= i < old(self).q@.len() && i != tid ==> (#[trigger] final(self).q@[i])@
                    == old(self).q@[i]@,
    {
        self.q[tid][lock_id] = self.q[tid][lock_id] + 1;
    }

    /// Notes that task `tid` got its unit of `lock_id`: one fewer waiting,
    /// one fewer available, one more held.
    pub fn post_wait_succ(&mut self, tid: usize, lock_id: usize)
        requires
            tid < old(self).q@.len(),
            lock_id < old(self).q@[tid as int]@.len(),
            tid < old(self).alloc@.len(),
            lock_id < old(self).alloc@[tid as int]@.len(),
            lock_id < old(self).avail@.len(),
            old(self).avail@[lock_id as int] > 0,
            old(self).q@[tid as int]@[lock_id as int] > 0,
            old(self).alloc@[tid as int]@[lock_id as int] < usize::MAX,
        ensures
            final(self).locks@ == old(self).locks@,
            final(self).q@.len() == old(self).q@.len(),
            final(self).alloc@.len() == old(self).alloc@.len(),
            final(self).q@[tid as int]@ == old(self).q@[tid as int]@.update(
                lock_id as int,
                (old(self).q@[tid as int]@[lock_id as int] - 1) as usize,
            ),
            final(self).alloc@[tid as int]@ == old(self).alloc@[tid as int]@.update(
                lock_id as int,
                (old(self).alloc@[tid as int]@[lock_id as int] + 1) as usize,
            ),
            final(self).avail@ == old(self).avail@.update(
                lock_id as int,
                (old(self).avail@[lock_id as int] - 1) as usize,
            ),
            forall|i: int|
                0 <= i < old(self).q@.len() && i != tid ==> (#[trigger] final(self).q@[i])@
                    == old(self).q@[i]@,
            forall|i: int|
                0 <= i < old(self).alloc@.len() && i != tid ==> (#[trigger] final(self).alloc@[i])@ == old(self).alloc@[i]@,
    {
        self.q[tid][lock_id] = self.q[tid][lock_id] - 1;
        self.avail[lock_id] = self.avail[lock_id] - 1;
        self.alloc[tid][lock_id] = self.alloc[tid][lock_id] + 1;
    }

    /// Returns every unit task `tid` holds to the available pool, waking
    /// one waiter per unit through the lock's own release.
    pub fn release_all_locks(&mut self, tid: usize)
        requires
            tid < old(self).alloc@.len(),
            old(self).alloc@[tid as int]@.len() == old(self).avail@.len(),
            old(self).alloc@[tid as int]@.len() <= old(self).locks@.len(),
            forall|j: int|
                0 <= j < old(self).avail@.len() ==> old(self).avail@[j] + old(self).alloc@[
                    tid as int]@[j] <= usize::MAX,
            forall|j: int|
                0 <= j < old(self).alloc@[tid as int]@.len() && old(self).alloc@[tid as int]@[j]
                    > 0 ==> (#[trigger] old(self).locks@[j]) is Some,
        ensures
            final(self).locks@ == old(self).locks@,
            final(self).q@ == old(self).q@,
            final(self).avail@.len() == old(self).avail@.len(),
            forall|j: int|
                0 <= j < old(self).avail@.len() ==> (#[trigger] final(self).avail@[j])
                    == old(self).avail@[j] + old(self).alloc@[tid as int]@[j],
            final(self).alloc@.len() == old(self).alloc@.len(),
            final(self).alloc@[tid as int]@.len() == old(self).alloc@[tid as int]@.len(),
            forall|j: int|
                0 <= j < final(self).alloc@[tid as int]@.len() ==> (#[trigger] final(self).alloc@[tid as int]@[j]) == 0,
            forall|i: int|
                0 <= i < old(self).alloc@.len() && i != tid ==> (#[trigger] final(self).alloc@[i])@ == old(self).alloc@[i]@,
    {
        let n = self.alloc[tid].len();
        let mut j: usize = 0;
        while j < n
            invariant
                tid < self.alloc@.len(),
                self.alloc@.len() == old(self).alloc@.len(),
                n == old(self).alloc@[tid as int]@.len(),
                n == old(self).avail@.len(),
                n <= old(self).locks@.len(),
                j <= n,
                self.locks@ == old(self).locks@,
                self.q@ == old(self).q@,
                self.avail@.len() == old(self).avail@.len(),
                self.alloc@[tid as int]@.len() == n,
                forall|jj: int|
                    0 <= jj < old(self).avail@.len() ==> old(self).avail@[jj] + old(self).alloc@[
                        tid as int]@[jj] <= usize::MAX,
                forall|jj: int|
                    0 <= jj < n && old(self).alloc@[tid as int]@[jj] > 0 ==> (
                    #[trigger] old(self).locks@[jj]) is Some,
                forall|jj: int|
                    0 <= jj < j ==> (#[trigger] self.avail@[jj]) == old(self).avail@[jj] + old(self).alloc@[tid as int]@[jj],
                forall|jj: int| j <= jj < n ==> (#[trigger] self.avail@[jj]) == old(self).avail@[jj],
                forall|jj: int| 0 <= jj < j ==> (#[trigger] self.alloc@[tid as int]@[jj]) == 0,
                forall|jj: int|
                    j <= jj < n ==> (#[trigger] self.alloc@[tid as int]@[jj]) == old(self).alloc@[
                        tid as int]@[jj],
                forall|i: int|
                    0 <= i < old(self).alloc@.len() && i != tid ==> (#[trigger] self.alloc@[i])@
                        == old(self).alloc@[i]@,
            decreases n - j,
        {
            let held = self.alloc[tid][j];
            self.avail[j] = self.avail[j] + held;
            let mut c: usize = 0;
            while c < held
                invariant
                    c <= held,
                    j < n,
                    n <= self.locks@.len(),
                    held > 0 ==> self.locks@[j as int] is Some,
                    self.locks@ == old(self).locks@,
                decreases held - c,
            {
                match &self.locks[j] {
                    Some(l) => l.up(),
                    None => {
                        proof {
                            assert(false);
                        }
                    },
                }
                c = c + 1;
            }
            self.alloc[tid][j] = 0;
            j = j + 1;
        }
    }

    /// Notes that task `tid` gave up waiting for `lock_id` and releases
    /// everything it holds before it exits.
    pub fn post_wait_fail(&mut self, tid: usize, lock_id: usize)
        requires
            tid < old(self).q@.len(),
            lock_id < old(self).q@[tid as int]@.len(),
            old(self).q@[tid as int]@[lock_id as int] > 0,
            tid < old(self).alloc@.len(),
            old(self).alloc@[tid as int]@.len() == old(self).avail@.len(),
            old(self).alloc@[tid as int]@.len() <= old(self).locks@.len(),
            forall|j: int|
                0 <= j < old(self).avail@.len() ==> old(self).avail@[j] + old(self).alloc@[
                    tid as int]@[j] <= usize::MAX,
            forall|j: int|
                0 <= j < old(self).alloc@[tid as int]@.len() && old(self).alloc@[tid as int]@[j]
                    > 0 ==> (#[trigger] old(self).locks@[j]) is Some,
        ensures
            final(self).locks@ == old(self).locks@,
            final(self).q@.len() == old(self).q@.len(),
            final(self).q@[tid as int]@ == old(self).q@[tid as int]@.update(
                lock_id as int,
                (old(self).q@[tid as int]@[lock_id as int] - 1) as usize,
            ),
            forall|j: int|
                0 <= j < old(self).avail@.len() ==> (#[trigger] final(self).avail@[j])
                    == old(self).avail@[j] + old(self).alloc@[tid as int]@[j],
            forall|j: int|
                0 <= j < final(self).alloc@[tid as int]@.len() ==> (#[trigger] final(self).alloc@[tid as int]@[j]) == 0,
    {
        self.q[tid][lock_id] = self.q[tid][lock_id] - 1;
        self.release_all_locks(tid);
    }

    /// Checks, growing the bookkeeping as needed, that task `tid` indeed
    /// holds a unit of `lock_id` before it releases one; a release without
    /// a matching held unit is excluded.
    pub fn pre_release(&mut self, tid: usize, lock_id: usize)
        requires
            tid < usize::MAX,
            lock_id < usize::MAX,
            tid < old(self).alloc@.len(),
            lock_id < old(self).alloc@[tid as int]@.len(),
            old(self).alloc@[tid as int]@[lock_id as int] > 0,
        ensures
            final(self).locks@ == old(self).locks@,
            final(self).avail@ == old(self).avail@,
            matrix_extended(old(self).alloc@, final(self).alloc@, tid + 1, lock_id + 1),
            matrix_extended(old(self).q@, final(self).q@, tid + 1, lock_id + 1),
            final(self).alloc@[tid as int]@[lock_id as int] == old(self).alloc@[tid as int]@[
                lock_id as int],
    {
        self.prepare_lock_state(tid + 1, lock_id + 1);
    }

    /// Notes that task `tid` released one unit of `lock_id`.
    pub fn post_release(&mut self, tid: usize, lock_id: usize)
        requires
            lock_id < old(self).avail@.len(),
            old(self).avail@[lock_id as int] < usize::MAX,
            tid < old(self).alloc@.len(),
            lock_id < old(self).alloc@[tid as int]@.len(),
            old(self).alloc@[tid as int]@[lock_id as int] > 0,
        ensures
            final(self).locks@ == old(self).locks@,
            final(self).q@ == old(self).q@,
            final(self).avail@ == old(self).avail@.update(
                lock_id as int,
                (old(self).avail@[lock_id as int] + 1) as usize,
            ),
            final(self).alloc@.len() == old(self).alloc@.len(),
            final(self).alloc@[tid as int]@ == old(self).alloc@[tid as int]@.update(
                lock_id as int,
                (old(self).alloc@[tid as int]@[lock_id as int] - 1) as usize,
            ),
            forall|i: int|
                0 <= i < old(self).alloc@.len() && i != tid ==> (#[trigger] final(self).alloc@[i])@ == old(self).alloc@[i]@,
    {
        self.avail[lock_id] = self.avail[lock_id] + 1;
        self.alloc[tid][lock_id] = self.alloc[tid][lock_id] - 1;
    }

    /// Runs the banker's reduction: repeatedly finishes any task whose
    /// requests fit in the working pool and reclaims its held units;
    /// reports deadlock when unfinished tasks remain. The bookkeeping is
    /// first grown to cover every known task and lock; no count changes.
    pub fn has_deadlock(&mut self) -> (r: bool)
        ensures
            final(self).locks@ == old(self).locks@,
            final(self).avail@ == old(self).avail@,
            r == spec_banker_stuck(
                rows_of(final(self).q@),
                rows_of(final(self).alloc@),
                work_of(final(self).avail@),
                falses(final(self).alloc@.len()),
            ),
            final(self).alloc@.len() == old(self).alloc@.len(),
            r == true ==> exists|t: int, j: int|
                0 <= t < final(self).q@.len() && 0 <= j < (#[trigger] final(self).q@[t])@.len()
                    && 0 <= j < old(self).avail@.len() && ((#[trigger] final(self).q@[t]@[j]) as int)
                    > old(self).avail@[j],
            (forall|t: int, j: int|
                0 <= t < final(self).q@.len() && 0 <= j < (#[trigger] final(self).q@[t])@.len()
                    ==> (#[trigger] final(self).q@[t]@[j]) == 0) ==> r == false,
            matrix_extended(
                old(self).alloc@,
                final(self).alloc@,
                old(self).alloc@.len() as int,
                old(self).locks@.len() as int,
            ),
            matrix_extended(
                old(self).q@,
                final(self).q@,
                old(self).alloc@.len() as int,
                old(self).locks@.len() as int,
            ),
    {
        let num_threads = self.alloc.len();
        let num_lock = self.locks.len();
        self.prepare_lock_state(num_threads, num_lock);
        let n = num_threads;
        proof {
            assert(n <= self.alloc@.len() && n <= self.q@.len());
        }
        let mut finish: Vec<bool> = Vec::new();
        let mut i: usize = 0;
        while i < n
            invariant
                i <= n,
                finish@.len() == i,
                forall|j: int| 0 <= j < i ==> finish@[j] == false,
            decreases n - i,
        {
            finish.push(false);
            i = i + 1;
        }
        let mut work: Vec<u128> = Vec::new();
        let mut i: usize = 0;
        while i < self.avail.len()
            invariant
                i <= self.avail@.len(),
                work@.len() == i,
                forall|j: int| 0 <= j < i ==> work@[j] <= usize::MAX,
                forall|j: int| 0 <= j < i ==> (#[trigger] work@[j]) == self.avail@[j] as u128,
            decreases self.avail@.len() - i,
        {
            work.push(self.avail[i] as u128);
            i = i + 1;
        }
        let ghost s0 = *self;
        proof {
            assert(forall|j: int|
                0 <= j < finish@.len() ==> bool_w()(#[trigger] finish@[j]) == 0);
            crate::counting::lemma_wsum_all_zero(finish@, bool_w());
            assert(finish@ =~= falses(n as nat));
            assert(work_int(work@) =~= work_of(self.avail@));
        }
        let mut done: usize = 0;
        let mut go = true;
        while go
            invariant
                *self == s0,
                n <= self.alloc@.len(),
                n <= self.q@.len(),
                finish@.len() == n,
                done == wsum(finish@, bool_w()),
                done <= n,
                work@.len() == s0.avail@.len(),
                forall|j: int|
                    0 <= j < work@.len() ==> (#[trigger] work@[j]) >= s0.avail@[j] as u128,
                !go ==> forall|t: int|
                    0 <= t < n ==> (#[trigger] finish@[t]) == true || exists|j: int|
                        0 <= j < self.q@[t]@.len() && 0 <= j < work@.len() && ((
                        #[trigger] self.q@[t]@[j]) as u128) > work@[j],
                forall|j: int| 0 <= j < work@.len() ==> (#[trigger] work@[j]) <= (done + 1)
                    * (usize::MAX as int),
                spec_banker_stuck(
                    rows_of(self.q@),
                    rows_of(self.alloc@),
                    work_of(s0.avail@),
                    falses(n as nat),
                ) == spec_banker_go(
                    rows_of(self.q@),
                    rows_of(self.alloc@),
                    work_int(work@),
                    finish@,
                    (n - done) as nat,
                ),
                !go ==> spec_banker_stuck(
                    rows_of(self.q@),
                    rows_of(self.alloc@),
                    work_of(s0.avail@),
                    falses(n as nat),
                ) == (exists|t: int| 0 <= t < finish@.len() && (#[trigger] finish@[t]) == false),
            decreases n - done + (if go {
                1int
            } else {
                0int
            }),
        {
            let found = self.find_ready(&finish, &work, n);
            match found {
                None => {
                    proof {
                        lemma_banker_stop(
                            rows_of(self.q@),
                            rows_of(self.alloc@),
                            work_int(work@),
                            finish@,
                            (n - done) as nat,
                        );
                    }
                    go = false;
                },
                Some(t) => {
                    let ghost fin0 = finish@;
                    let ghost w0 = work@;
                    let ghost done0 = done as int;
                    proof {
                        lemma_wsum_member(fin0, t as int, bool_w());
                        lemma_wsum_update(fin0, t as int, true, bool_w());
                        assert(forall|j: int|
                            0 <= j < fin0.len() ==> bool_w()(#[trigger] fin0[j]) <= 1);
                        lemma_wsum_le_len(fin0.update(t as int, true), bool_w());
                        assert(spec_first_ready(
                            rows_of(self.q@),
                            work_int(w0),
                            fin0,
                            t as int,
                        ));
                    }
                    finish[t] = true;
                    done = done + 1;
                    let row_len = if self.alloc[t].len() < work.len() {
                        self.alloc[t].len()
                    } else {
                        work.len()
                    };
                    let mut j: usize = 0;
                    while j < row_len
                        invariant
                            *self == s0,
                            t < self.alloc@.len(),
                            row_len <= self.alloc@[t as int]@.len(),
                            row_len <= work@.len(),
                            j <= row_len,
                            done <= n,
                            done >= 1,
                            work@.len() == s0.avail@.len(),
                            forall|jj: int|
                                0 <= jj < work@.len() ==> (#[trigger] work@[jj]) >= s0.avail@[jj]
                                    as u128,
                            forall|jj: int|
                                0 <= jj < j ==> (#[trigger] work@[jj]) <= (done + 1) * (
                                usize::MAX as int),
                            forall|jj: int|
                                j <= jj < work@.len() ==> (#[trigger] work@[jj]) <= done * (
                                usize::MAX as int),
                            row_len == if self.alloc@[t as int]@.len() < work@.len() {
                                self.alloc@[t as int]@.len() as int
                            } else {
                                work@.len() as int
                            },
                            forall|jj: int|
                                0 <= jj < j ==> (#[trigger] work@[jj]) as int == w0[jj] as int
                                    + self.alloc@[t as int]@[jj],
                            forall|jj: int|
                                j <= jj < work@.len() ==> (#[trigger] work@[jj]) == w0[jj],
                        decreases row_len - j,
                    {
                        proof {
                            assert(work@[j as int] + self.alloc@[t as int]@[j as int] <= (done + 1)
                                * (usize::MAX as int) && (done + 1) * (usize::MAX as int)
                                <= u128::MAX) by (nonlinear_arith)
                                requires
                                    work@[j as int] <= done * (usize::MAX as int),
                                    self.alloc@[t as int]@[j as int] <= usize::MAX,
                                    1 <= done <= n <= usize::MAX,
                                    usize::MAX <= 0xFFFFFFFFFFFFFFFFu64,
                            ;
                        }
                        work[j] = work[j] + (self.alloc[t][j] as u128);
                        j = j + 1;
                    }
                    proof {
                        assert forall|jj: int| 0 <= jj < work@.len() implies (
                        #[trigger] work@[jj]) <= (done + 1) * (usize::MAX as int) by {
                            if jj >= row_len {
                                assert(work@[jj] <= done * (usize::MAX as int));
                                assert(done * (usize::MAX as int) <= (done + 1) * (
                                usize::MAX as int)) by (nonlinear_arith);
                            }
                        }
                        assert(work_int(work@) =~= work_after(
                            work_int(w0),
                            rows_of(self.alloc@)[t as int],
                        ));
                        assert(done0 + 1 <= n);
                        lemma_banker_step(
                            rows_of(self.q@),
                            rows_of(self.alloc@),
                            work_int(w0),
                            fin0,
                            t as int,
                            (n - done0) as nat,
                        );
                        assert(finish@ == fin0.update(t as int, true));
                    }
                },
            }
        }
        let mut deadlock = false;
        let mut i: usize = 0;
        while i < n
            invariant
                i <= n,
                finish@.len() == n,
                deadlock <==> exists|t: int| 0 <= t < i && (#[trigger] finish@[t]) == false,
            decreases n - i,
        {
            if !finish[i] {
                deadlock = true;
                proof {
                    assert(finish@[i as int] == false);
                }
            }
            i = i + 1;
        }
        proof {
            if deadlock {
                let t = choose|t: int| 0 <= t < n && (#[trigger] finish@[t]) == false;
                assert(finish@[t] == false);
                let j = choose|j: int|
                    0 <= j < self.q@[t]@.len() && 0 <= j < work@.len() && ((
                    #[trigger] self.q@[t]@[j]) as u128) > work@[j];
                assert(work@[j] >= s0.avail@[j] as u128);
                assert((self.q@[t]@[j] as int) > s0.avail@[j]);
                assert(0 <= t < self.q@.len() && 0 <= j < self.q@[t]@.len() && 0 <= j
                    < s0.avail@.len() && (self.q@[t]@[j] as int) > s0.avail@[j]);
            }
        }
        deadlock
    }

    /// Scans for an unfinished task whose requests fit in the working
    /// pool.
    fn find_ready(&self, finish: &Vec<bool>, work: &Vec<u128>, n: usize) -> (r: Option<usize>)
        requires
            n <= self.q@.len(),
            finish@.len() == n,
        ensures
            match r {
                Some(t) => t < n && finish@[t as int] == false && task_fits(
                    rows_of(self.q@),
                    work_int(work@),
                    t as int,
                ) && (forall|i2: int|
                    0 <= i2 < t ==> !spec_ready(
                        rows_of(self.q@),
                        work_int(work@),
                        finish@,
                        i2,
                    )),
                None => (forall|i: int|
                    0 <= i < n ==> (#[trigger] finish@[i]) == true || exists|j: int|
                        0 <= j < self.q@[i]@.len() && 0 <= j < work@.len() && ((
                        #[trigger] self.q@[i]@[j]) as u128) > work@[j]) && (forall|i2: int|
                    !(#[trigger] spec_ready(rows_of(self.q@), work_int(work@), finish@, i2))),
            },
    {
        let mut i: usize = 0;
        while i < n
            invariant
                i <= n,
                n <= self.q@.len(),
                finish@.len() == n,
                forall|ii: int|
                    0 <= ii < i ==> (#[trigger] finish@[ii]) == true || exists|j: int|
                        0 <= j < self.q@[ii]@.len() && 0 <= j < work@.len() && ((
                        #[trigger] self.q@[ii]@[j]) as u128) > work@[j],
                forall|ii: int|
                    0 <= ii < i ==> !spec_ready(
                        rows_of(self.q@),
                        work_int(work@),
                        finish@,
                        ii,
                    ),
            decreases n - i,
        {
            if !finish[i] {
                let row = &self.q[i];
                let m = if row.len() < work.len() {
                    row.len()
                } else {
                    work.len()
                };
                let mut ok = true;
                let mut j: usize = 0;
                while j < m
                    invariant
                        j <= m,
                        i < self.q@.len(),
                        m <= self.q@[i as int]@.len(),
                        m <= work@.len(),
                        m == if self.q@[i as int]@.len() < work@.len() {
                            self.q@[i as int]@.len() as int
                        } else {
                            work@.len() as int
                        },
                        row == self.q@[i as int],
                        ok ==> forall|jj: int|
                            0 <= jj < j ==> ((#[trigger] self.q@[i as int]@[jj]) as u128)
                                <= work@[jj],
                        !ok ==> exists|jj: int|
                            0 <= jj < self.q@[i as int]@.len() && 0 <= jj < work@.len() && ((
                            #[trigger] self.q@[i as int]@[jj]) as u128) > work@[jj],
                    decreases m - j,
                {
                    if (row[j] as u128) > work[j] {
                        ok = false;
                        proof {
                            assert(((self.q@[i as int]@[j as int]) as u128) > work@[j as int]);
                        }
                    }
                    j = j + 1;
                }
                if ok {
                    proof {
                        assert forall|jj: int|
                            0 <= jj < rows_of(self.q@)[i as int].len() && jj < work_int(
                                work@,
                            ).len() implies rows_of(self.q@)[i as int][jj] <= work_int(work@)[jj] by {
                            assert(jj < m);
                            assert((self.q@[i as int]@[jj] as u128) <= work@[jj]);
                        }
                        assert(task_fits(rows_of(self.q@), work_int(work@), i as int));
                    }
                    return Some(i);
                }
                proof {
                    assert(!task_fits(rows_of(self.q@), work_int(work@), i as int)) by {
                        let jj = choose|jj: int|
                            0 <= jj < self.q@[i as int]@.len() && 0 <= jj < work@.len() && ((
                            #[trigger] self.q@[i as int]@[jj]) as u128) > work@[jj];
                        assert(rows_of(self.q@)[i as int][jj] > work_int(work@)[jj]);
                    }
                }
            } else {
                proof {
                    assert(finish@[i as int] == true);
                }
            }
            i = i + 1;
        }
        proof {
            assert forall|i2: int|
                !(#[trigger] spec_ready(rows_of(self.q@), work_int(work@), finish@, i2)) by {
                if 0 <= i2 < n {
                }
            }
        }
        None
    }

    /// Checks, growing the bookkeeping first, whether granting task `tid`
    /// one more unit of `lock_id` would deadlock the system; the waiting
    /// count is restored before returning. With the cell already at its
    /// ceiling the probe saturates and reports deadlock.
    pub fn has_deadlock_if_wait_for(&mut self, tid: usize, lock_id: usize) -> (r: bool)
        requires
            tid < usize::MAX,
            lock_id < usize::MAX,
        ensures
            final(self).locks@ == old(self).locks@,
            final(self).avail@ == old(self).avail@,
            tid < final(self).q@.len(),
            lock_id < final(self).q@[tid as int]@.len(),
            final(self).q@.len() >= old(self).q@.len(),
            forall|i: int|
                0 <= i < old(self).q@.len() ==> (#[trigger] final(self).q@[i])@.len()
                    >= old(self).q@[i]@.len(),
            forall|i: int, j: int|
                0 <= i < old(self).q@.len() && 0 <= j < old(self).q@[i]@.len() ==> (
                #[trigger] final(self).q@[i]@[j]) == old(self).q@[i]@[j],
            final(self).alloc@.len() >= old(self).alloc@.len(),
            forall|i: int|
                0 <= i < old(self).alloc@.len() ==> (#[trigger] final(self).alloc@[i])@.len()
                    >= old(self).alloc@[i]@.len(),
            forall|i: int, j: int|
                0 <= i < old(self).alloc@.len() && 0 <= j < old(self).alloc@[i]@.len() ==> (
                #[trigger] final(self).alloc@[i]@[j]) == old(self).alloc@[i]@[j],
            r == true ==> exists|t: int, j: int|
                0 <= t < final(self).q@.len() && 0 <= j < (#[trigger] final(self).q@[t])@.len()
                    && ((#[trigger] final(self).q@[t]@[j]) as int) + (if t == tid && j == lock_id {
                    1int
                } else {
                    0int
                }) > (if j < final(self).avail@.len() {
                    final(self).avail@[j] as int
                } else {
                    0int
                }),
            final(self).q@[tid as int]@[lock_id as int] == usize::MAX ==> r == true,
            final(self).q@[tid as int]@[lock_id as int] < usize::MAX ==> r == spec_banker_stuck(
                bump(rows_of(final(self).q@), tid as int, lock_id as int),
                rows_of(final(self).alloc@),
                work_of(final(self).avail@),
                falses(final(self).alloc@.len()),
            ),
    {
        self.prepare_lock_state(tid + 1, lock_id + 1);
        if self.q[tid][lock_id] == usize::MAX {
            proof {
                let t = tid as int;
                let j = lock_id as int;
                assert((self.q@[t]@[j] as int) + 1 > (if j < self.avail@.len() {
                    self.avail@[j] as int
                } else {
                    0int
                })) by {
                    if j < self.avail@.len() {
                        assert(self.avail@[j] <= usize::MAX);
                    }
                }
            }
            return true;
        }
        self.q[tid][lock_id] = self.q[tid][lock_id] + 1;
        let ghost bumped = *self;
        let result = self.has_deadlock();
        let ghost qc = self.q@;
        proof {
            assert(self.q@[tid as int]@[lock_id as int] >= 1);
        }
        self.q[tid][lock_id] = self.q[tid][lock_id] - 1;
        proof {
            assert(bump(rows_of(self.q@), tid as int, lock_id as int) =~~= rows_of(qc));
            assert(self.q@.len() == qc.len());
            assert(self.q@[tid as int]@ == qc[tid as int]@.update(
                lock_id as int,
                (qc[tid as int]@[lock_id as int] - 1) as usize,
            ));
            assert(forall|i: int|
                0 <= i < qc.len() && i != tid ==> (#[trigger] self.q@[i])@ == qc[i]@);
            if result {
                let (t, j) = choose|t: int, j: int|
                    0 <= t < qc.len() && 0 <= j < (#[trigger] qc[t])@.len() && 0 <= j
                        < bumped.avail@.len() && ((#[trigger] qc[t]@[j]) as int)
                        > bumped.avail@[j];
                assert(0 <= t < self.q@.len());
                assert(self.q@[t]@.len() == qc[t]@.len());
                assert(0 <= j < self.q@[t]@.len());
                if t == tid as int && j == lock_id as int {
                    assert((self.q@[t]@[j] as int) + 1 == (qc[t]@[j] as int));
                    assert((self.q@[t]@[j] as int) + 1 > bumped.avail@[j]);
                } else {
                    assert(self.q@[t]@[j] == qc[t]@[j]);
                    assert((self.q@[t]@[j] as int) > bumped.avail@[j]);
                }
                assert(exists|t2: int, j2: int|
                    0 <= t2 < self.q@.len() && 0 <= j2 < (#[trigger] self.q@[t2])@.len() && ((
                    #[trigger] self.q@[t2]@[j2]) as int) + (if t2 == tid && j2 == lock_id {
                        1int
                    } else {
                        0int
                    }) > (if j2 < self.avail@.len() {
                        self.avail@[j2] as int
                    } else {
                        0int
                    }));
            }
        }
        result
    }
}

/// The integer view of one bookkeeping matrix.
pub open spec fn rows_of(m: Seq<Vec<usize>>) -> Seq<Seq<int>> {
    Seq::new(m.len(), |i: int| Seq::new(m[i]@.len(), |j: int| m[i]@[j] as int))
}

/// The integer view of the available units.
pub open spec fn work_of(avail: Seq<usize>) -> Seq<int> {
    Seq::new(avail.len(), |j: int| avail[j] as int)
}

/// The integer view of the growing working pool.
pub open spec fn work_int(w: Seq<u128>) -> Seq<int> {
    Seq::new(w.len(), |j: int| w[j] as int)
}

/// `n` unfinished marks.
pub open spec fn falses(n: nat) -> Seq<bool> {
    Seq::new(n, |i: int| false)
}

/// `q` with one more unit of `l` requested by task `t`.
pub open spec fn bump(q: Seq<Seq<int>>, t: int, l: int) -> Seq<Seq<int>> {
    q.update(t, q[t].update(l, q[t][l] + 1))
}

/// Task `i`'s outstanding requests all fit in the working pool.
pub open spec fn task_fits(q: Seq<Seq<int>>, work: Seq<int>, i: int) -> bool {
    forall|j: int| 0 <= j < q[i].len() && j < work.len() ==> q[i][j] <= work[j]
}

/// Task `i` can finish next: tracked, unfinished, and its requests fit.
pub open spec fn spec_ready(q: Seq<Seq<int>>, work: Seq<int>, finish: Seq<bool>, i: int) -> bool {
    &&& 0 <= i < finish.len()
    &&& finish[i] == false
    &&& task_fits(q, work, i)
}

/// Task `i` is the first that can finish next.
pub open spec fn spec_first_ready(
    q: Seq<Seq<int>>,
    work: Seq<int>,
    finish: Seq<bool>,
    i: int,
) -> bool {
    spec_ready(q, work, finish, i) && forall|i2: int|
        0 <= i2 < i ==> !spec_ready(q, work, finish, i2)
}

/// The pool after one task returns every unit it holds.
pub open spec fn work_after(work: Seq<int>, row: Seq<int>) -> Seq<int> {
    Seq::new(work.len(), |j: int| work[j] + if 0 <= j < row.len() {
        row[j]
    } else {
        0
    })
}

/// One bounded run of the banker's reduction: while some task's requests
/// fit in the working pool and fuel remains, the first such task finishes
/// and returns its units; deadlock is declared exactly when unfinished
/// tasks remain. Each step finishes one task, so `finish.len()` fuel
/// always reaches the fixed point.
pub open spec fn spec_banker_go(
    q: Seq<Seq<int>>,
    alloc: Seq<Seq<int>>,
    work: Seq<int>,
    finish: Seq<bool>,
    fuel: nat,
) -> bool
    decreases fuel,
{
    if fuel > 0 && (exists|i: int| #[trigger] spec_first_ready(q, work, finish, i)) {
        let i = choose|i: int| spec_first_ready(q, work, finish, i);
        spec_banker_go(
            q,
            alloc,
            work_after(
                work,
                if 0 <= i < alloc.len() {
                    alloc[i]
                } else {
                    Seq::empty()
                },
            ),
            finish.update(i, true),
            (fuel - 1) as nat,
        )
    } else {
        exists|i: int| 0 <= i < finish.len() && finish[i] == false
    }
}

/// The banker's reduction run to its fixed point from the initial pool.
pub open spec fn spec_banker_stuck(
    q: Seq<Seq<int>>,
    alloc: Seq<Seq<int>>,
    work: Seq<int>,
    finish: Seq<bool>,
) -> bool {
    spec_banker_go(q, alloc, work, finish, finish.len())
}

/// Two first-ready tasks are the same task.
proof fn lemma_first_ready_unique(
    q: Seq<Seq<int>>,
    work: Seq<int>,
    finish: Seq<bool>,
    i1: int,
    i2: int,
)
    requires
        spec_first_ready(q, work, finish, i1),
        spec_first_ready(q, work, finish, i2),
    ensures
        i1 == i2,
{
    if i1 < i2 {
        assert(!spec_ready(q, work, finish, i1));
    } else if i2 < i1 {
        assert(!spec_ready(q, work, finish, i2));
    }
}

/// A ready task guarantees a first ready task.
proof fn lemma_first_ready_exists(q: Seq<Seq<int>>, work: Seq<int>, finish: Seq<bool>, i: int)
    requires
        spec_ready(q, work, finish, i),
    ensures
        exists|m: int| #[trigger] spec_first_ready(q, work, finish, m),
    decreases i,
{
    if forall|i2: int| 0 <= i2 < i ==> !spec_ready(q, work, finish, i2) {
        assert(spec_first_ready(q, work, finish, i));
    } else {
        let i2 = choose|i2: int| 0 <= i2 < i && spec_ready(q, work, finish, i2);
        lemma_first_ready_exists(q, work, finish, i2);
    }
}

/// Unfolds one step of the reduction at the first ready task.
proof fn lemma_banker_step(
    q: Seq<Seq<int>>,
    alloc: Seq<Seq<int>>,
    work: Seq<int>,
    finish: Seq<bool>,
    t: int,
    fuel: nat,
)
    requires
        spec_first_ready(q, work, finish, t),
        0 <= t < alloc.len(),
        fuel > 0,
    ensures
        spec_banker_go(q, alloc, work, finish, fuel) == spec_banker_go(
            q,
            alloc,
            work_after(work, alloc[t]),
            finish.update(t, true),
            (fuel - 1) as nat,
        ),
{
    assert(exists|i: int| #[trigger] spec_first_ready(q, work, finish, i));
    let i = choose|i: int| spec_first_ready(q, work, finish, i);
    lemma_first_ready_unique(q, work, finish, i, t);
}

/// When no task is ready the reduction stops: deadlock iff anyone is
/// unfinished, whatever fuel remains.
proof fn lemma_banker_stop(
    q: Seq<Seq<int>>,
    alloc: Seq<Seq<int>>,
    work: Seq<int>,
    finish: Seq<bool>,
    fuel: nat,
)
    requires
        forall|i: int| !(#[trigger] spec_ready(q, work, finish, i)),
    ensures
        spec_banker_go(q, alloc, work, finish, fuel) == exists|i: int|
            0 <= i < finish.len() && finish[i] == false,
{
    assert(!exists|i: int| #[trigger] spec_first_ready(q, work, finish, i)) by {
        if exists|i: int| #[trigger] spec_first_ready(q, work, finish, i) {
            let i = choose|i: int| spec_first_ready(q, work, finish, i);
            assert(spec_ready(q, work, finish, i));
        }
    }
}

/// The weight of one finish flag.
pub open spec fn bool_w() -> spec_fn(bool) -> nat {
    |b: bool| if b {
        1nat
    } else {
        0nat
    }
}

/// `r` covers `n` rows of `l` cells, keeps every cell of `src`, and fills
/// every new cell with zero.
pub open spec fn matrix_extended(
    src: Seq<Vec<usize>>,
    r: Seq<Vec<usize>>,
    n: int,
    l: int,
) -> bool {
    &&& r.len() == if src.len() >= n {
        src.len() as int
    } else {
        n
    }
    &&& forall|i: int|
        0 <= i < src.len() ==> (#[trigger] r[i])@.len() == if src[i]@.len() >= l {
            src[i]@.len() as int
        } else {
            l
        }
    &&& forall|i: int| src.len() <= i < r.len() ==> (#[trigger] r[i])@.len() == l
    &&& forall|i: int, j: int|
        0 <= i < src.len() && 0 <= j < src[i]@.len() ==> (#[trigger] r[i]@[j]) == src[i]@[j]
    &&& forall|i: int, j: int|
        0 <= i < r.len() && 0 <= j < r[i]@.len() && !(0 <= i < src.len() && 0 <= j
            < src[i]@.len()) ==> (#[trigger] r[i]@[j]) == 0
}

/// Copies a matrix, growing it to at least `n` rows of at least `l`
/// cells, with new cells zero.
fn extended(src: &Vec<Vec<usize>>, n: usize, l: usize) -> (r: Vec<Vec<usize>>)
    ensures
        matrix_extended(src@, r@, n as int, l as int),
{
    let rows: usize = if src.len() >= n {
        src.len()
    } else {
        n
    };
    let mut r: Vec<Vec<usize>> = Vec::new();
    let mut i: usize = 0;
    while i < rows
        invariant
            i <= rows,
            r@.len() == i,
            rows == if src@.len() >= n {
                src@.len() as int
            } else {
                n as int
            },
            forall|ii: int|
                0 <= ii < i && ii < src@.len() ==> (#[trigger] r@[ii])@.len() == (
                if src@[ii]@.len() >= l {
                    src@[ii]@.len() as int
                } else {
                    l as int
                }),
            forall|ii: int| src@.len() <= ii < i ==> (#[trigger] r@[ii])@.len() == l,
            forall|ii: int, j: int|
                0 <= ii < i && ii < src@.len() && 0 <= j < src@[ii]@.len() ==> (
                #[trigger] r@[ii]@[j]) == src@[ii]@[j],
            forall|ii: int, j: int|
                0 <= ii < i && 0 <= j < r@[ii]@.len() && !(0 <= ii < src@.len() && 0 <= j
                    < src@[ii]@.len()) ==> (#[trigger] r@[ii]@[j]) == 0,
        decreases rows - i,
    {
        let cols: usize = if i < src.len() {
            if src[i].len() >= l {
                src[i].len()
            } else {
                l
            }
        } else {
            l
        };
        let mut row: Vec<usize> = Vec::new();
        let mut j: usize = 0;
        while j < cols
            invariant
                j <= cols,
                row@.len() == j,
                cols == if i < src@.len() {
                    if src@[i as int]@.len() >= l {
                        src@[i as int]@.len() as int
                    } else {
                        l as int
                    }
                } else {
                    l as int
                },
                forall|jj: int|
                    0 <= jj < j && i < src@.len() && jj < src@[i as int]@.len() ==> (
                    #[trigger] row@[jj]) == src@[i as int]@[jj],
                forall|jj: int|
                    0 <= jj < j && !(i < src@.len() && jj < src@[i as int]@.len()) ==> (
                    #[trigger] row@[jj]) == 0,
            decreases cols - j,
        {
            if i < src.len() && j < src[i].len() {
                row.push(src[i][j]);
            } else {
                row.push(0);
            }
            j = j + 1;
        }
        r.push(row);
        i = i + 1;
    }
    r
}

} // verus!