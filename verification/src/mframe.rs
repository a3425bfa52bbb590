//! The frame tracker: per-entry ownership records for RAM-backed pages,
//! with lazy allocation, exclusive ownership, and copy-on-write sharing.
//! Every operation here is the only way a tracked entry may change.

use vstd::prelude::*;
use crate::cfg::PAGE_SIZE;
use crate::counting::{
    lemma_wsum_all_zero, lemma_wsum_member, lemma_wsum_push, lemma_wsum_remove,
    lemma_wsum_two, lemma_wsum_update, wsum,
};
use crate::kernel::{
    clone_bytes, file_w, frame_w, rec_frame, rec_w, res_w, zero_page, FrameEntry, FrameRec,
    Kernel, MFile,
};
use crate::kvmap::{assoc_has, assoc_idx, lemma_assoc_at};
use crate::pte::{Perm, Pte};

verus! {

/// No record and no resident file mapping points at a frame outside the
/// pool.
pub proof fn lemma_count_not_pooled(k: Kernel, p: u64)
    requires
        k.wf(),
        !k.pool@.contains_key(p),
    ensures
        wsum(k.frames.pairs(), frame_w(p)) == 0,
        wsum(k.files.pairs(), file_w(p)) == 0,
        k.frame_count(p) == 0,
{
    let fp = k.frames.pairs();
    assert forall|i: int| 0 <= i < fp.len() implies frame_w(p)(#[trigger] fp[i]) == 0 by {
        let e = fp[i];
        if rec_frame(e.1) == Some(p) {
            lemma_assoc_at(fp, e.0, i);
            assert(k.frames@.contains_key(e.0));
            assert(k.frames@[e.0] == e.1);
        }
    }
    lemma_wsum_all_zero(fp, frame_w(p));
    let lp = k.files.pairs();
    assert forall|i: int| 0 <= i < lp.len() implies file_w(p)(#[trigger] lp[i]) == 0 by {
        let e = lp[i];
        if e.1.resident == Some(p) {
            lemma_assoc_at(lp, e.0, i);
            assert(k.files@.contains_key(e.0));
            assert(k.files@[e.0] == e.1);
        }
    }
    lemma_wsum_all_zero(lp, file_w(p));
}

/// A frame whose count is one has exactly the one holder that is named:
/// no other record and no resident file mapping points at it.
pub proof fn lemma_sole_ref(k: Kernel, key: u64, p: u64)
    requires
        k.wf(),
        k.frames@.contains_key(key),
        rec_frame(k.frames@[key]) == Some(p),
        k.pool@.contains_key(p),
        k.pool@[p].rc == 1,
    ensures
        forall|k2: u64| #[trigger] k.frames@.contains_key(k2) && k2 != key ==> rec_frame(
            k.frames@[k2],
        ) != Some(p),
        forall|pos: u64| #[trigger] k.files@.contains_key(pos) ==> k.files@[pos].resident != Some(
            p,
        ),
{
    let fp = k.frames.pairs();
    let lp = k.files.pairs();
    let i = assoc_idx(fp, key);
    assert(k.frames@.contains_key(key) == assoc_has(fp, key));
    assert(0 <= i < fp.len() && fp[i].0 == key);
    assert(fp[i].1 == k.frames@[key]);
    assert(frame_w(p)(fp[i]) == 1);
    lemma_wsum_member(fp, i, frame_w(p));
    assert forall|k2: u64|
        #[trigger] k.frames@.contains_key(k2) && k2 != key implies rec_frame(k.frames@[k2])
        != Some(p) by {
        if rec_frame(k.frames@[k2]) == Some(p) {
            let j = assoc_idx(fp, k2);
            assert(0 <= j < fp.len() && fp[j].0 == k2);
            assert(fp[j].1 == k.frames@[k2]);
            assert(j != i);
            lemma_wsum_two(fp, i, j, frame_w(p));
        }
    }
    assert forall|pos: u64| #[trigger] k.files@.contains_key(pos) implies k.files@[pos].resident
        != Some(p) by {
        if k.files@[pos].resident == Some(p) {
            let j = assoc_idx(lp, pos);
            assert(0 <= j < lp.len() && lp[j].0 == pos);
            assert(lp[j].1 == k.files@[pos]);
            lemma_wsum_member(lp, j, file_w(p));
        }
    }
}

/// The handle of one frame-tracker record, naming the page-table entry it
/// governs. Dropping a mapping goes through `unmap`.
#[derive(Clone, Copy, Debug)]
pub struct MFrameHandle {
    pub key: u64,
}

impl MFrameHandle {
    /// Tracks the entry lazily: no frame yet, entry invalidated.
    pub fn map_lazy(k: &mut Kernel, key: u64) -> (h: MFrameHandle)
        requires
            old(k).wf(),
            old(k).ptes@.contains_key(key),
            !old(k).frames@.contains_key(key),
            !old(k).fmap@.contains_key(key),
        ensures
            h.key == key,
            final(k).wf(),
            final(k).frames@ == old(k).frames@.insert(key, FrameRec::Lazy),
            final(k).ptes@ == old(k).ptes@.insert(key, Pte::spec_invalid()),
            final(k).pool@ == old(k).pool@,
            final(k).files@ == old(k).files@,
            final(k).fmap@ == old(k).fmap@,
            final(k).files.pairs() == old(k).files.pairs(),
            final(k).fmap.pairs() == old(k).fmap.pairs(),
            final(k).next_pt == old(k).next_pt,
            final(k).next_ppn == old(k).next_ppn,
    {
        let ghost op = k.frames.pairs();
        k.frames.insert(key, FrameRec::Lazy);
        k.ptes.insert(key, Pte::invalid());
        proof {
            assert(!assoc_has(op, key));
            assert(k.frames.pairs() == op.push((key, FrameRec::Lazy)));
            assert forall|p: u64| #[trigger] k.pool@.contains_key(p) implies k.pool@[p].rc
                == k.frame_count(p) by {
                lemma_wsum_push(op, (key, FrameRec::Lazy), frame_w(p));
            }
            assert forall|k2: u64| #[trigger] k.frames@.contains_key(k2) implies Kernel::rec_ok(
                k.frames@[k2],
                k.ptes@[k2],
                k.pool@,
            ) by {
                if k2 != key {
                    assert(old(k).frames@.contains_key(k2));
                }
            }
        }
        MFrameHandle { key }
    }

    /// Loads a lazy record: allocates a zeroed frame, takes ownership, and
    /// validates the entry with `perm`. On an owned record it does nothing.
    pub fn load(&self, k: &mut Kernel, perm: Perm)
        requires
            old(k).wf(),
            old(k).frames@.contains_key(self.key),
            !(old(k).frames@[self.key] is Cow),
            old(k).can_alloc(1),
        ensures
            final(k).wf(),
            final(k).files@ == old(k).files@,
            final(k).fmap@ == old(k).fmap@,
            final(k).files.pairs() == old(k).files.pairs(),
            final(k).fmap.pairs() == old(k).fmap.pairs(),
            final(k).next_pt == old(k).next_pt,
            old(k).frames@[self.key] is Owned ==> final(k).frames@ == old(k).frames@
                && final(k).ptes@ == old(k).ptes@ && final(k).pool@ == old(k).pool@
                && final(k).next_ppn == old(k).next_ppn,
            old(k).frames@[self.key] is Lazy ==> {
                let p = old(k).next_ppn;
                &&& final(k).frames@ == old(k).frames@.insert(self.key, FrameRec::Owned(p))
                &&& final(k).ptes@ == old(k).ptes@.insert(self.key, Pte::spec_valid(p, perm))
                &&& !old(k).pool@.contains_key(p)
                &&& final(k).pool@ == old(k).pool@.insert(p, final(k).pool@[p])
                &&& final(k).pool@[p].rc == 1
                &&& final(k).pool@[p].bytes@.len() == PAGE_SIZE
                &&& (forall|i: int| 0 <= i < PAGE_SIZE ==> final(k).pool@[p].bytes@[i] == 0u8)
                &&& final(k).next_ppn == old(k).next_ppn + 1
            },
    {
        let rec = get_rec(k, self.key);
        match rec {
            FrameRec::Owned(_) => {},
            FrameRec::Cow(_) => {
                proof {
                    assert(false);
                }
            },
            FrameRec::Lazy => {
                let p = k.next_ppn;
                proof {
                    assert(!old(k).pool@.contains_key(p));
                    lemma_count_not_pooled(*old(k), p);
                }
                k.next_ppn = k.next_ppn + 1;
                k.pool.insert(p, FrameEntry { rc: 1, bytes: zero_page() });
                let ghost op = k.frames.pairs();
                let ghost idx = assoc_idx(op, self.key);
                k.frames.insert(self.key, FrameRec::Owned(p));
                k.ptes.insert(self.key, Pte::valid(p, perm));
                proof {
                    assert(assoc_has(op, self.key));
                    assert(0 <= idx < op.len() && op[idx].0 == self.key);
                    assert(op[idx].1 == old(k).frames@[self.key]);
                    assert(op[idx] == (self.key, FrameRec::Lazy));
                    assert(k.frames.pairs() == op.update(idx, (self.key, FrameRec::Owned(p))));
                    assert forall|q: u64| #[trigger] k.pool@.contains_key(q) implies k.pool@[q].rc
                        == k.frame_count(q) by {
                        lemma_wsum_update(op, idx, (self.key, FrameRec::Owned(p)), frame_w(q));
                        if q == p {
                            assert(rec_w(FrameRec::Owned(p), q) == 1);
                        } else {
                            assert(old(k).pool@.contains_key(q));
                        }
                    }
                    assert forall|k2: u64| #[trigger] k.frames@.contains_key(k2) implies
                        Kernel::rec_ok(k.frames@[k2], k.ptes@[k2], k.pool@) by {
                        if k2 != self.key {
                            assert(old(k).frames@.contains_key(k2));
                            assert(Kernel::rec_ok(
                                old(k).frames@[k2],
                                old(k).ptes@[k2],
                                old(k).pool@,
                            ));
                        }
                    }
                    assert forall|k2: u64|
                        #[trigger] k.frames@.contains_key(k2) && k.frames@[k2] is Owned implies
                        k.pool@[rec_frame(k.frames@[k2]).unwrap()].rc == 1 by {
                        if k2 != self.key {
                            assert(old(k).frames@.contains_key(k2));
                            let q = rec_frame(old(k).frames@[k2]).unwrap();
                            assert(old(k).pool@.contains_key(q));
                            assert(q != p);
                        }
                    }
                }
            },
        }
    }

    /// Tracks the entry and immediately loads a zeroed owned frame for it.
    pub fn map_strict(k: &mut Kernel, key: u64, perm: Perm) -> (h: MFrameHandle)
        requires
            old(k).wf(),
            old(k).ptes@.contains_key(key),
            !old(k).frames@.contains_key(key),
            !old(k).fmap@.contains_key(key),
            old(k).can_alloc(1),
        ensures
            h.key == key,
            final(k).wf(),
            final(k).files@ == old(k).files@,
            final(k).fmap@ == old(k).fmap@,
            final(k).files.pairs() == old(k).files.pairs(),
            final(k).fmap.pairs() == old(k).fmap.pairs(),
            final(k).next_pt == old(k).next_pt,
            ({
                let p = old(k).next_ppn;
                &&& final(k).frames@ == old(k).frames@.insert(key, FrameRec::Owned(p))
                &&& final(k).ptes@ == old(k).ptes@.insert(key, Pte::spec_valid(p, perm))
                &&& !old(k).pool@.contains_key(p)
                &&& final(k).pool@ == old(k).pool@.insert(p, final(k).pool@[p])
                &&& final(k).pool@[p].rc == 1
                &&& final(k).pool@[p].bytes@.len() == PAGE_SIZE
                &&& (forall|i: int| 0 <= i < PAGE_SIZE ==> final(k).pool@[p].bytes@[i] == 0u8)
                &&& final(k).next_ppn == old(k).next_ppn + 1
            }),
    {
        let h = MFrameHandle::map_lazy(k, key);
        h.load(k, perm);
        proof {
            assert(final(k).frames@ =~= old(k).frames@.insert(
                key,
                FrameRec::Owned(old(k).next_ppn),
            ));
            assert(final(k).ptes@ =~= old(k).ptes@.insert(
                key,
                Pte::spec_valid(old(k).next_ppn, perm),
            ));
        }
        h
    }
}

impl MFrameHandle {
    /// Whether the record is lazy.
    pub fn is_lazy(&self, k: &Kernel) -> (r: bool)
        requires
            k.wf(),
            k.frames@.contains_key(self.key),
        ensures
            r == (k.frames@[self.key] is Lazy),
    {
        matches!(get_rec(k, self.key), FrameRec::Lazy)
    }

    /// Whether the record owns its frame.
    pub fn is_owned(&self, k: &Kernel) -> (r: bool)
        requires
            k.wf(),
            k.frames@.contains_key(self.key),
        ensures
            r == (k.frames@[self.key] is Owned),
    {
        matches!(get_rec(k, self.key), FrameRec::Owned(_))
    }

    /// Whether the record shares its frame copy-on-write.
    pub fn is_cow(&self, k: &Kernel) -> (r: bool)
        requires
            k.wf(),
            k.frames@.contains_key(self.key),
        ensures
            r == (k.frames@[self.key] is Cow),
    {
        matches!(get_rec(k, self.key), FrameRec::Cow(_))
    }

    /// Untracks the entry. A lazy record leaves the entry alone; a backed
    /// record invalidates it and gives up its reference on the frame, which
    /// is freed once no holder is left.
    pub fn unmap(&self, k: &mut Kernel)
        requires
            old(k).wf(),
            old(k).frames@.contains_key(self.key),
        ensures
            final(k).wf(),
            final(k).frames@ == old(k).frames@.remove(self.key),
            final(k).files@ == old(k).files@,
            final(k).fmap@ == old(k).fmap@,
            final(k).files.pairs() == old(k).files.pairs(),
            final(k).fmap.pairs() == old(k).fmap.pairs(),
            final(k).next_pt == old(k).next_pt,
            final(k).next_ppn == old(k).next_ppn,
            old(k).frames@[self.key] is Lazy ==> final(k).ptes@ == old(k).ptes@ && final(k).pool@
                == old(k).pool@,
            !(old(k).frames@[self.key] is Lazy) ==> {
                let p = rec_frame(old(k).frames@[self.key]).unwrap();
                &&& final(k).ptes@ == old(k).ptes@.insert(self.key, Pte::spec_invalid())
                &&& (old(k).pool@[p].rc == 1 ==> final(k).pool@ == old(k).pool@.remove(p))
                &&& (old(k).pool@[p].rc != 1 ==> final(k).pool@ == old(k).pool@.insert(
                    p,
                    final(k).pool@[p],
                ) && final(k).pool@[p].rc == old(k).pool@[p].rc - 1 && final(k).pool@[p].bytes@
                    == old(k).pool@[p].bytes@)
            },
    {
        let rec = get_rec(k, self.key);
        let ghost op = k.frames.pairs();
        let ghost idx = assoc_idx(op, self.key);
        proof {
            assert(assoc_has(op, self.key));
            assert(0 <= idx < op.len() && op[idx].0 == self.key);
            assert(op[idx].1 == old(k).frames@[self.key]);
        }
        match rec {
            FrameRec::Lazy => {
                self.untrack(k, rec);
            },
            FrameRec::Owned(p) => {
                self.untrack_backed(k, rec, p);
            },
            FrameRec::Cow(p) => {
                self.untrack_backed(k, rec, p);
            },
        }
    }

    /// Drops a lazy record.
    fn untrack(&self, k: &mut Kernel, rec: FrameRec)
        requires
            old(k).wf(),
            old(k).frames@.contains_key(self.key),
            rec == old(k).frames@[self.key],
            rec is Lazy,
        ensures
            final(k).wf(),
            final(k).frames@ == old(k).frames@.remove(self.key),
            final(k).ptes@ == old(k).ptes@,
            final(k).pool@ == old(k).pool@,
            final(k).files@ == old(k).files@,
            final(k).fmap@ == old(k).fmap@,
            final(k).files.pairs() == old(k).files.pairs(),
            final(k).fmap.pairs() == old(k).fmap.pairs(),
            final(k).next_pt == old(k).next_pt,
            final(k).next_ppn == old(k).next_ppn,
    {
        let ghost op = k.frames.pairs();
        let ghost idx = assoc_idx(op, self.key);
        let _ = k.frames.remove(self.key);
        proof {
            assert(k.frames.pairs() == op.remove(idx));
            assert(op[idx] == (self.key, FrameRec::Lazy));
            assert forall|q: u64| #[trigger] k.pool@.contains_key(q) implies k.pool@[q].rc
                == k.frame_count(q) by {
                lemma_wsum_remove(op, idx, frame_w(q));
            }
            assert forall|k2: u64| #[trigger] k.frames@.contains_key(k2) implies Kernel::rec_ok(
                k.frames@[k2],
                k.ptes@[k2],
                k.pool@,
            ) by {
                assert(old(k).frames@.contains_key(k2));
            }
        }
    }

    /// Drops an owning or sharing record: invalidates the entry and gives
    /// up one reference on frame `p`.
    fn untrack_backed(&self, k: &mut Kernel, rec: FrameRec, p: u64)
        requires
            old(k).wf(),
            old(k).frames@.contains_key(self.key),
            rec == old(k).frames@[self.key],
            rec_frame(rec) == Some(p),
        ensures
            final(k).wf(),
            final(k).frames@ == old(k).frames@.remove(self.key),
            final(k).ptes@ == old(k).ptes@.insert(self.key, Pte::spec_invalid()),
            final(k).files@ == old(k).files@,
            final(k).fmap@ == old(k).fmap@,
            final(k).files.pairs() == old(k).files.pairs(),
            final(k).fmap.pairs() == old(k).fmap.pairs(),
            final(k).next_pt == old(k).next_pt,
            final(k).next_ppn == old(k).next_ppn,
            old(k).pool@[p].rc == 1 ==> final(k).pool@ == old(k).pool@.remove(p),
            old(k).pool@[p].rc != 1 ==> final(k).pool@ == old(k).pool@.insert(
                p,
                final(k).pool@[p],
            ) && final(k).pool@[p].rc == old(k).pool@[p].rc - 1 && final(k).pool@[p].bytes@ == old(
                k,
            ).pool@[p].bytes@,
    {
        proof {
            assert(old(k).pool@.contains_key(p));
        }
        let rc = pool_rc(k, p);
        let ghost op = k.frames.pairs();
        let ghost idx = assoc_idx(op, self.key);
        proof {
            assert(op[idx] == (self.key, rec));
            lemma_wsum_member(op, idx, frame_w(p));
        }
        let _ = k.frames.remove(self.key);
        k.ptes.insert(self.key, Pte::invalid());
        if rc == 1 {
            proof {
                lemma_sole_ref(*old(k), self.key, p);
            }
            let _ = k.pool.remove(p);
            proof {
                assert(k.frames.pairs() == op.remove(idx));
                assert forall|q: u64| #[trigger] k.pool@.contains_key(q) implies k.pool@[q].rc
                    == k.frame_count(q) by {
                    lemma_wsum_remove(op, idx, frame_w(q));
                    assert(q != p);
                }
                assert forall|k2: u64| #[trigger] k.frames@.contains_key(k2) implies
                    Kernel::rec_ok(k.frames@[k2], k.ptes@[k2], k.pool@) by {
                    assert(old(k).frames@.contains_key(k2));
                    assert(k2 != self.key);
                    assert(rec_frame(old(k).frames@[k2]) != Some(p));
                }
            }
        } else {
            let e = match k.pool.remove(p) {
                Some(e) => e,
                None => {
                    proof {
                        assert(false);
                    }
                    FrameEntry { rc: 0, bytes: Vec::new() }
                },
            };
            let e2 = FrameEntry { rc: e.rc - 1, bytes: e.bytes };
            k.pool.insert(p, e2);
            proof {
                assert(k.pool@ =~= old(k).pool@.insert(p, k.pool@[p]));
                assert(k.frames.pairs() == op.remove(idx));
                assert forall|q: u64| #[trigger] k.pool@.contains_key(q) implies k.pool@[q].rc
                    == k.frame_count(q) by {
                    lemma_wsum_remove(op, idx, frame_w(q));
                    if q != p {
                        assert(old(k).pool@.contains_key(q));
                    }
                }
                assert forall|k2: u64| #[trigger] k.frames@.contains_key(k2) implies
                    Kernel::rec_ok(k.frames@[k2], k.ptes@[k2], k.pool@) by {
                    assert(old(k).frames@.contains_key(k2));
                }
                assert forall|k2: u64|
                    #[trigger] k.frames@.contains_key(k2) && k.frames@[k2] is Owned implies
                    k.pool@[rec_frame(k.frames@[k2]).unwrap()].rc == 1 by {
                    assert(old(k).frames@.contains_key(k2));
                    let q = rec_frame(old(k).frames@[k2]).unwrap();
                    assert(old(k).pool@[q].rc == 1);
                    assert(q != p);
                }
            }
        }
    }

    /// Takes exclusive ownership of a copy-on-write page and restores its
    /// write bit. If the frame has other holders its bytes are copied into
    /// a fresh frame first; an owned record is left as it is.
    pub fn cown(&self, k: &mut Kernel)
        requires
            old(k).wf(),
            old(k).frames@.contains_key(self.key),
            !(old(k).frames@[self.key] is Lazy),
            old(k).can_alloc(1),
        ensures
            final(k).wf(),
            final(k).files@ == old(k).files@,
            final(k).fmap@ == old(k).fmap@,
            final(k).files.pairs() == old(k).files.pairs(),
            final(k).fmap.pairs() == old(k).fmap.pairs(),
            final(k).next_pt == old(k).next_pt,
            old(k).frames@[self.key] is Owned ==> final(k).frames@ == old(k).frames@
                && final(k).ptes@ == old(k).ptes@ && final(k).pool@ == old(k).pool@
                && final(k).next_ppn == old(k).next_ppn,
            old(k).frames@[self.key] is Cow ==> {
                let p = rec_frame(old(k).frames@[self.key]).unwrap();
                let pte0 = old(k).ptes@[self.key];
                &&& (old(k).pool@[p].rc == 1 ==> final(k).frames@ == old(k).frames@.insert(
                    self.key,
                    FrameRec::Owned(p),
                ) && final(k).ptes@ == old(k).ptes@.insert(self.key, pte0.spec_with_w())
                    && final(k).pool@ == old(k).pool@ && final(k).next_ppn == old(k).next_ppn)
                &&& (old(k).pool@[p].rc != 1 ==> {
                    let np = old(k).next_ppn;
                    &&& final(k).frames@ == old(k).frames@.insert(self.key, FrameRec::Owned(np))
                    &&& final(k).ptes@ == old(k).ptes@.insert(
                        self.key,
                        (Pte { ppn: np, ..pte0 }).spec_with_w(),
                    )
                    &&& !old(k).pool@.contains_key(np)
                    &&& final(k).pool@ == old(k).pool@.insert(p, final(k).pool@[p]).insert(
                        np,
                        final(k).pool@[np],
                    )
                    &&& final(k).pool@[p].rc == old(k).pool@[p].rc - 1
                    &&& final(k).pool@[p].bytes@ == old(k).pool@[p].bytes@
                    &&& final(k).pool@[np].rc == 1
                    &&& final(k).pool@[np].bytes@ == old(k).pool@[p].bytes@
                    &&& final(k).next_ppn == np + 1
                })
            },
    {
        let rec = get_rec(k, self.key);
        match rec {
            FrameRec::Owned(_) => {},
            FrameRec::Lazy => {
                proof {
                    assert(false);
                }
            },
            FrameRec::Cow(p) => {
                let rc = pool_rc(k, p);
                let pte0 = match k.ptes.get(self.key) {
                    Some(e) => *e,
                    None => {
                        proof {
                            assert(false);
                        }
                        Pte::invalid()
                    },
                };
                let ghost op = k.frames.pairs();
                let ghost idx = assoc_idx(op, self.key);
                proof {
                    assert(op[idx] == (self.key, rec));
                    lemma_wsum_member(op, idx, frame_w(p));
                }
                if rc == 1 {
                    k.frames.insert(self.key, FrameRec::Owned(p));
                    k.ptes.insert(self.key, pte0.with_w());
                    proof {
                        assert(k.frames.pairs() == op.update(idx, (self.key, FrameRec::Owned(p))));
                        assert forall|q: u64| #[trigger] k.pool@.contains_key(q) implies
                            k.pool@[q].rc == k.frame_count(q) by {
                            lemma_wsum_update(op, idx, (self.key, FrameRec::Owned(p)), frame_w(q));
                        }
                        assert forall|k2: u64| #[trigger] k.frames@.contains_key(k2) implies
                            Kernel::rec_ok(k.frames@[k2], k.ptes@[k2], k.pool@) by {
                            if k2 != self.key {
                                assert(old(k).frames@.contains_key(k2));
                            }
                        }
                    }
                } else {
                    let src = match k.pool.get(p) {
                        Some(e) => clone_bytes(&e.bytes),
                        None => {
                            proof {
                                assert(false);
                            }
                            Vec::new()
                        },
                    };
                    let np = k.next_ppn;
                    proof {
                        lemma_count_not_pooled(*old(k), np);
                    }
                    k.next_ppn = k.next_ppn + 1;
                    let e = match k.pool.remove(p) {
                        Some(e) => e,
                        None => {
                            proof {
                                assert(false);
                            }
                            FrameEntry { rc: 0, bytes: Vec::new() }
                        },
                    };
                    k.pool.insert(p, FrameEntry { rc: e.rc - 1, bytes: e.bytes });
                    k.pool.insert(np, FrameEntry { rc: 1, bytes: src });
                    k.frames.insert(self.key, FrameRec::Owned(np));
                    let npte = Pte {
                        ppn: np,
                        v: pte0.v,
                        r: pte0.r,
                        w: true,
                        x: pte0.x,
                        u: pte0.u,
                    };
                    k.ptes.insert(self.key, npte);
                    proof {
                        assert(npte == (Pte { ppn: np, ..pte0 }).spec_with_w());
                        assert(k.pool@ =~= old(k).pool@.insert(p, k.pool@[p]).insert(
                            np,
                            k.pool@[np],
                        ));
                        assert(k.frames.pairs() == op.update(idx, (self.key, FrameRec::Owned(np))));
                        assert forall|q: u64| #[trigger] k.pool@.contains_key(q) implies
                            k.pool@[q].rc == k.frame_count(q) by {
                            lemma_wsum_update(op, idx, (self.key, FrameRec::Owned(np)), frame_w(q));
                            if q != p && q != np {
                                assert(old(k).pool@.contains_key(q));
                            }
                        }
                        assert forall|k2: u64| #[trigger] k.frames@.contains_key(k2) implies
                            Kernel::rec_ok(k.frames@[k2], k.ptes@[k2], k.pool@) by {
                            if k2 != self.key {
                                assert(old(k).frames@.contains_key(k2));
                            }
                        }
                        assert forall|k2: u64|
                            #[trigger] k.frames@.contains_key(k2) && k.frames@[k2] is Owned implies
                            k.pool@[rec_frame(k.frames@[k2]).unwrap()].rc == 1 by {
                            if k2 != self.key {
                                assert(old(k).frames@.contains_key(k2));
                                let q = rec_frame(old(k).frames@[k2]).unwrap();
                                assert(old(k).pool@[q].rc == 1);
                                assert(old(k).pool@.contains_key(q));
                                assert(q != np);
                                assert(q != p);
                            }
                        }
                    }
                }
            },
        }
    }
}

impl MFrameHandle {
    /// Shares this record's page with the entry `other`, copy-on-write. A
    /// lazy origin hands out another lazy record; an owned origin turns
    /// into a sharing record, losing its write bit together with the
    /// borrower; a sharing origin hands out one more reference.
    pub fn share_cow(&self, k: &mut Kernel, other: u64) -> (h: MFrameHandle)
        requires
            old(k).wf(),
            old(k).frames@.contains_key(self.key),
            !old(k).frames@.contains_key(other),
            !old(k).fmap@.contains_key(other),
            old(k).ptes@.contains_key(other),
            !old(k).ptes@[other].v,
            other != self.key,
            old(k).rc_headroom(1),
        ensures
            h.key == other,
            final(k).wf(),
            final(k).files@ == old(k).files@,
            final(k).fmap@ == old(k).fmap@,
            final(k).files.pairs() == old(k).files.pairs(),
            final(k).fmap.pairs() == old(k).fmap.pairs(),
            final(k).next_pt == old(k).next_pt,
            final(k).next_ppn == old(k).next_ppn,
            old(k).frames@[self.key] is Lazy ==> final(k).frames@ == old(k).frames@.insert(
                other,
                FrameRec::Lazy,
            ) && final(k).ptes@ == old(k).ptes@ && final(k).pool@ == old(k).pool@,
            old(k).frames@[self.key] is Owned ==> {
                let p = rec_frame(old(k).frames@[self.key]).unwrap();
                let pl = old(k).ptes@[self.key].spec_no_w();
                &&& final(k).frames@ == old(k).frames@.insert(self.key, FrameRec::Cow(p)).insert(
                    other,
                    FrameRec::Cow(p),
                )
                &&& final(k).ptes@ == old(k).ptes@.insert(self.key, pl).insert(other, pl)
                &&& final(k).pool@ == old(k).pool@.insert(p, final(k).pool@[p])
                &&& final(k).pool@[p].rc == 2
                &&& final(k).pool@[p].bytes@ == old(k).pool@[p].bytes@
            },
            old(k).frames@[self.key] is Cow ==> {
                let p = rec_frame(old(k).frames@[self.key]).unwrap();
                &&& final(k).frames@ == old(k).frames@.insert(other, FrameRec::Cow(p))
                &&& final(k).ptes@ == old(k).ptes@.insert(other, old(k).ptes@[self.key])
                &&& final(k).pool@ == old(k).pool@.insert(p, final(k).pool@[p])
                &&& final(k).pool@[p].rc == old(k).pool@[p].rc + 1
                &&& final(k).pool@[p].bytes@ == old(k).pool@[p].bytes@
            },
    {
        let rec = get_rec(k, self.key);
        match rec {
            FrameRec::Lazy => {
                let ghost op = k.frames.pairs();
                k.frames.insert(other, FrameRec::Lazy);
                proof {
                    assert(k.frames.pairs() == op.push((other, FrameRec::Lazy)));
                    assert forall|q: u64| #[trigger] k.pool@.contains_key(q) implies k.pool@[q].rc
                        == k.frame_count(q) by {
                        lemma_wsum_push(op, (other, FrameRec::Lazy), frame_w(q));
                    }
                    assert forall|k2: u64| #[trigger] k.frames@.contains_key(k2) implies
                        Kernel::rec_ok(k.frames@[k2], k.ptes@[k2], k.pool@) by {
                        if k2 != other {
                            assert(old(k).frames@.contains_key(k2));
                        }
                    }
                }
            },
            FrameRec::Owned(p) => {
                let pte0 = match k.ptes.get(self.key) {
                    Some(e) => *e,
                    None => {
                        proof {
                            assert(false);
                        }
                        Pte::invalid()
                    },
                };
                proof {
                    assert(old(k).pool@[p].rc == 1);
                    lemma_sole_ref(*old(k), self.key, p);
                }
                let pl = pte0.without_w();
                k.ptes.insert(self.key, pl);
                k.ptes.insert(other, pl);
                let ghost op = k.frames.pairs();
                let ghost idx = assoc_idx(op, self.key);
                proof {
                    assert(op[idx] == (self.key, rec));
                }
                k.frames.insert(self.key, FrameRec::Cow(p));
                let ghost op1 = k.frames.pairs();
                k.frames.insert(other, FrameRec::Cow(p));
                let e = match k.pool.remove(p) {
                    Some(e) => e,
                    None => {
                        proof {
                            assert(false);
                        }
                        FrameEntry { rc: 0, bytes: Vec::new() }
                    },
                };
                k.pool.insert(p, FrameEntry { rc: e.rc + 1, bytes: e.bytes });
                proof {
                    assert(k.pool@ =~= old(k).pool@.insert(p, k.pool@[p]));
                    assert(op1 == op.update(idx, (self.key, FrameRec::Cow(p))));
                    assert(k.frames.pairs() == op1.push((other, FrameRec::Cow(p))));
                    assert forall|q: u64| #[trigger] k.pool@.contains_key(q) implies k.pool@[q].rc
                        == k.frame_count(q) by {
                        lemma_wsum_update(op, idx, (self.key, FrameRec::Cow(p)), frame_w(q));
                        lemma_wsum_push(op1, (other, FrameRec::Cow(p)), frame_w(q));
                        if q != p {
                            assert(old(k).pool@.contains_key(q));
                        }
                    }
                    assert forall|k2: u64| #[trigger] k.frames@.contains_key(k2) implies
                        Kernel::rec_ok(k.frames@[k2], k.ptes@[k2], k.pool@) by {
                        if k2 != other && k2 != self.key {
                            assert(old(k).frames@.contains_key(k2));
                        }
                    }
                    assert forall|k2: u64|
                        #[trigger] k.frames@.contains_key(k2) && k.frames@[k2] is Owned implies
                        k.pool@[rec_frame(k.frames@[k2]).unwrap()].rc == 1 by {
                        assert(k2 != self.key && k2 != other);
                        assert(old(k).frames@.contains_key(k2));
                        let q = rec_frame(old(k).frames@[k2]).unwrap();
                        assert(old(k).pool@[q].rc == 1);
                        assert(rec_frame(old(k).frames@[k2]) != Some(p));
                    }
                }
            },
            FrameRec::Cow(p) => {
                let pte0 = match k.ptes.get(self.key) {
                    Some(e) => *e,
                    None => {
                        proof {
                            assert(false);
                        }
                        Pte::invalid()
                    },
                };
                k.ptes.insert(other, pte0);
                let ghost op = k.frames.pairs();
                k.frames.insert(other, FrameRec::Cow(p));
                let e = match k.pool.remove(p) {
                    Some(e) => e,
                    None => {
                        proof {
                            assert(false);
                        }
                        FrameEntry { rc: 0, bytes: Vec::new() }
                    },
                };
                k.pool.insert(p, FrameEntry { rc: e.rc + 1, bytes: e.bytes });
                proof {
                    assert(k.pool@ =~= old(k).pool@.insert(p, k.pool@[p]));
                    assert(k.frames.pairs() == op.push((other, FrameRec::Cow(p))));
                    let ghost idx = assoc_idx(op, self.key);
                    assert(op[idx] == (self.key, rec));
                    assert forall|q: u64| #[trigger] k.pool@.contains_key(q) implies k.pool@[q].rc
                        == k.frame_count(q) by {
                        lemma_wsum_push(op, (other, FrameRec::Cow(p)), frame_w(q));
                        if q != p {
                            assert(old(k).pool@.contains_key(q));
                        }
                    }
                    assert forall|k2: u64| #[trigger] k.frames@.contains_key(k2) implies
                        Kernel::rec_ok(k.frames@[k2], k.ptes@[k2], k.pool@) by {
                        if k2 != other {
                            assert(old(k).frames@.contains_key(k2));
                        }
                    }
                    assert forall|k2: u64|
                        #[trigger] k.frames@.contains_key(k2) && k.frames@[k2] is Owned implies
                        k.pool@[rec_frame(k.frames@[k2]).unwrap()].rc == 1 by {
                        assert(k2 != other);
                        assert(old(k).frames@.contains_key(k2));
                        let q = rec_frame(old(k).frames@[k2]).unwrap();
                        assert(old(k).pool@[q].rc == 1);
                        if q == p {
                            let j = assoc_idx(op, k2);
                            assert(op[j] == (k2, old(k).frames@[k2]));
                            lemma_wsum_two(op, idx, j, frame_w(p));
                        }
                    }
                    assert forall|pos: u64|
                        #[trigger] k.files@.contains_key(pos) && k.files@[pos].resident
                            is Some implies k.pool@[k.files@[pos].resident.unwrap()].rc == 1 by {
                        let q = k.files@[pos].resident.unwrap();
                        if q == p {
                            let lp = old(k).files.pairs();
                            let j = assoc_idx(lp, pos);
                            assert(lp[j] == (pos, old(k).files@[pos]));
                            lemma_wsum_member(lp, j, file_w(p));
                            lemma_wsum_member(op, idx, frame_w(p));
                            assert(old(k).frame_count(p) >= 2);
                            assert(false);
                        }
                    }
                }
            },
        }
        MFrameHandle { key: other }
    }

    /// Forks this owned page eagerly: gives the entry `other` its own owned
    /// frame holding a copy of this page's bytes, validated with `perm`.
    pub fn strict_dup(&self, k: &mut Kernel, other: u64, perm: Perm) -> (h: MFrameHandle)
        requires
            old(k).wf(),
            old(k).frames@.contains_key(self.key),
            old(k).frames@[self.key] is Owned,
            !old(k).frames@.contains_key(other),
            !old(k).fmap@.contains_key(other),
            old(k).ptes@.contains_key(other),
            other != self.key,
            old(k).can_alloc(1),
        ensures
            h.key == other,
            final(k).wf(),
            final(k).files@ == old(k).files@,
            final(k).fmap@ == old(k).fmap@,
            final(k).files.pairs() == old(k).files.pairs(),
            final(k).fmap.pairs() == old(k).fmap.pairs(),
            final(k).next_pt == old(k).next_pt,
            ({
                let p = rec_frame(old(k).frames@[self.key]).unwrap();
                let np = old(k).next_ppn;
                &&& final(k).frames@ == old(k).frames@.insert(other, FrameRec::Owned(np))
                &&& final(k).ptes@ == old(k).ptes@.insert(other, Pte::spec_valid(np, perm))
                &&& !old(k).pool@.contains_key(np)
                &&& final(k).pool@ == old(k).pool@.insert(np, final(k).pool@[np])
                &&& final(k).pool@[np].rc == 1
                &&& final(k).pool@[np].bytes@ == old(k).pool@[p].bytes@
                &&& final(k).next_ppn == np + 1
            }),
    {
        let rec = get_rec(k, self.key);
        let p = match rec {
            FrameRec::Owned(p) => p,
            _ => {
                proof {
                    assert(false);
                }
                0
            },
        };
        let src = match k.pool.get(p) {
            Some(e) => clone_bytes(&e.bytes),
            None => {
                proof {
                    assert(false);
                }
                Vec::new()
            },
        };
        let np = k.next_ppn;
        proof {
            lemma_count_not_pooled(*old(k), np);
        }
        k.next_ppn = k.next_ppn + 1;
        k.pool.insert(np, FrameEntry { rc: 1, bytes: src });
        let ghost op = k.frames.pairs();
        k.frames.insert(other, FrameRec::Owned(np));
        k.ptes.insert(other, Pte::valid(np, perm));
        proof {
            assert(k.frames.pairs() == op.push((other, FrameRec::Owned(np))));
            assert forall|q: u64| #[trigger] k.pool@.contains_key(q) implies k.pool@[q].rc
                == k.frame_count(q) by {
                lemma_wsum_push(op, (other, FrameRec::Owned(np)), frame_w(q));
                if q != np {
                    assert(old(k).pool@.contains_key(q));
                }
            }
            assert forall|k2: u64| #[trigger] k.frames@.contains_key(k2) implies Kernel::rec_ok(
                k.frames@[k2],
                k.ptes@[k2],
                k.pool@,
            ) by {
                if k2 != other {
                    assert(old(k).frames@.contains_key(k2));
                }
            }
            assert forall|k2: u64|
                #[trigger] k.frames@.contains_key(k2) && k.frames@[k2] is Owned implies
                k.pool@[rec_frame(k.frames@[k2]).unwrap()].rc == 1 by {
                if k2 != other {
                    assert(old(k).frames@.contains_key(k2));
                    let q = rec_frame(old(k).frames@[k2]).unwrap();
                    assert(old(k).pool@.contains_key(q));
                    assert(q != np);
                }
            }
        }
        MFrameHandle { key: other }
    }
}

impl Kernel {
    /// Copies the contents of pooled frame `src` into pooled frame `dst`.
    pub fn copy_frame(&mut self, dst: u64, src: u64)
        requires
            old(self).wf(),
            old(self).pool@.contains_key(dst),
            old(self).pool@.contains_key(src),
            dst != src,
        ensures
            final(self).wf(),
            final(self).pool@ == old(self).pool@.insert(dst, final(self).pool@[dst]),
            final(self).pool@[dst].rc == old(self).pool@[dst].rc,
            final(self).pool@[dst].bytes@ == old(self).pool@[src].bytes@,
            final(self).ptes@ == old(self).ptes@,
            final(self).frames@ == old(self).frames@,
            final(self).frames.pairs() == old(self).frames.pairs(),
            final(self).files@ == old(self).files@,
            final(self).files.pairs() == old(self).files.pairs(),
            final(self).fmap@ == old(self).fmap@,
            final(self).fmap.pairs() == old(self).fmap.pairs(),
            final(self).next_pt == old(self).next_pt,
            final(self).next_ppn == old(self).next_ppn,
    {
        let bytes = match self.pool.get(src) {
            Some(e) => clone_bytes(&e.bytes),
            None => vstd::pervasive::unreached(),
        };
        let e = match self.pool.remove(dst) {
            Some(e) => e,
            None => vstd::pervasive::unreached(),
        };
        self.pool.insert(dst, FrameEntry { rc: e.rc, bytes });
        proof {
            assert(self.pool@ =~= old(self).pool@.insert(dst, self.pool@[dst]));
            assert forall|q: u64| #[trigger] self.pool@.contains_key(q) implies self.pool@[q].rc
                == self.frame_count(q) by {
                if q != dst {
                    assert(old(self).pool@.contains_key(q));
                }
            }
        }
    }

    /// Writes one byte of a pooled frame.
    pub fn write_byte(&mut self, p: u64, i: usize, b: u8)
        requires
            old(self).wf(),
            old(self).pool@.contains_key(p),
            i < PAGE_SIZE,
        ensures
            final(self).wf(),
            final(self).pool@ == old(self).pool@.insert(p, final(self).pool@[p]),
            final(self).pool@[p].rc == old(self).pool@[p].rc,
            final(self).pool@[p].bytes@ == old(self).pool@[p].bytes@.update(i as int, b),
            final(self).ptes@ == old(self).ptes@,
            final(self).frames@ == old(self).frames@,
            final(self).files@ == old(self).files@,
            final(self).fmap@ == old(self).fmap@,
            final(self).frames.pairs() == old(self).frames.pairs(),
            final(self).files.pairs() == old(self).files.pairs(),
            final(self).fmap.pairs() == old(self).fmap.pairs(),
            final(self).next_pt == old(self).next_pt,
            final(self).next_ppn == old(self).next_ppn,
    {
        let mut e = match self.pool.remove(p) {
            Some(e) => e,
            None => {
                proof {
                    assert(false);
                }
                FrameEntry { rc: 0, bytes: Vec::new() }
            },
        };
        e.bytes[i] = b;
        self.pool.insert(p, e);
        proof {
            assert(self.pool@ =~= old(self).pool@.insert(p, self.pool@[p]));
            assert forall|q: u64| #[trigger] self.pool@.contains_key(q) implies self.pool@[q].rc
                == self.frame_count(q) by {
                if q != p {
                    assert(old(self).pool@.contains_key(q));
                }
            }
        }
    }
}

/// Reads the reference count of a pooled frame.
pub fn pool_rc(k: &Kernel, p: u64) -> (r: usize)
    requires
        k.wf(),
        k.pool@.contains_key(p),
    ensures
        r == k.pool@[p].rc,
{
    match k.pool.get(p) {
        Some(e) => e.rc,
        None => {
            proof {
                assert(false);
            }
            0
        },
    }
}

/// Reads the frame-tracker record of an entry.
pub fn get_rec(k: &Kernel, key: u64) -> (r: FrameRec)
    requires
        k.wf(),
        k.frames@.contains_key(key),
    ensures
        r == k.frames@[key],
{
    match k.frames.get(key) {
        Some(r) => *r,
        None => {
            proof {
                assert(false);
            }
            FrameRec::Lazy
        },
    }
}

} // verus!
