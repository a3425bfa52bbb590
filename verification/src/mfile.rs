//! The file tracker: per-entry records for file-backed pages. Entries that
//! map the same (inode, offset) position share one record, so one resident
//! frame serves every sharer; `slim` writes unreferenced resident pages
//! back to their inode and frees their frames.

use vstd::prelude::*;
use vstd::pervasive::unreached;
use crate::cfg::PAGE_SIZE;
use crate::counting::{
    lemma_wsum_member, lemma_wsum_push, lemma_wsum_remove, lemma_wsum_update, wsum,
};
use crate::kernel::{
    clone_bytes, file_w, frame_w, pos_w, rec_frame, res_w, spec_pos_key, zero_page, FrameEntry,
    Kernel, MFile,
};
use crate::kvmap::{assoc_has, assoc_idx, lemma_assoc_at};
use crate::mframe::lemma_count_not_pooled;
use crate::pte::{Perm, Pte};
use crate::vfs::{Fs, Inode, InodeKind};

verus! {

/// Distinct aligned positions pack to distinct keys.
pub proof fn lemma_pos_key_inj(i1: u32, o1: usize, i2: u32, o2: usize)
    requires
        o1 % PAGE_SIZE == 0,
        o1 / PAGE_SIZE < 0x100000000,
        o2 % PAGE_SIZE == 0,
        o2 / PAGE_SIZE < 0x100000000,
        spec_pos_key(i1, o1) == spec_pos_key(i2, o2),
    ensures
        i1 == i2,
        o1 == o2,
{
    assert(i1 == i2 && o1 == o2) by (nonlinear_arith)
        requires
            o1 % 4096 == 0,
            o1 / 4096 < 0x100000000,
            o2 % 4096 == 0,
            o2 / 4096 < 0x100000000,
            i1 * 0x100000000 + o1 / 4096 == i2 * 0x100000000 + o2 / 4096,
            i1 <= 0xFFFFFFFFu32,
            i2 <= 0xFFFFFFFFu32,
    ;
}

/// A frame resident for a position with no other holder is referenced by
/// no frame-tracker record and by no other position.
pub proof fn lemma_sole_res(k: Kernel, pos: u64, p: u64)
    requires
        k.wf(),
        k.files@.contains_key(pos),
        k.files@[pos].resident == Some(p),
    ensures
        forall|k2: u64| #[trigger] k.frames@.contains_key(k2) ==> rec_frame(k.frames@[k2])
            != Some(p),
        forall|pos2: u64| #[trigger] k.files@.contains_key(pos2) && pos2 != pos
            ==> k.files@[pos2].resident != Some(p),
{
    let lp = k.files.pairs();
    let fp = k.frames.pairs();
    let i = assoc_idx(lp, pos);
    assert(lp[i] == (pos, k.files@[pos]));
    lemma_wsum_member(lp, i, file_w(p));
    assert(k.pool@[p].rc == 1);
    assert forall|k2: u64| #[trigger] k.frames@.contains_key(k2) implies rec_frame(k.frames@[k2])
        != Some(p) by {
        if rec_frame(k.frames@[k2]) == Some(p) {
            let j = assoc_idx(fp, k2);
            assert(fp[j] == (k2, k.frames@[k2]));
            lemma_wsum_member(fp, j, frame_w(p));
        }
    }
    assert forall|pos2: u64|
        #[trigger] k.files@.contains_key(pos2) && pos2 != pos implies k.files@[pos2].resident
        != Some(p) by {
        if k.files@[pos2].resident == Some(p) {
            let j = assoc_idx(lp, pos2);
            assert(lp[j] == (pos2, k.files@[pos2]));
            lemma_wsum_two(lp, i, j, file_w(p));
        }
    }
}

use crate::counting::lemma_wsum_two;

/// The handle of one file-tracker record, naming the page-table entry it
/// governs. Dropping a mapping goes through `unmap`.
#[derive(Clone, Copy, Debug)]
pub struct MFileHandle {
    pub key: u64,
}

/// Reads the shared record of the position that entry `key` maps.
pub fn get_mfile(k: &Kernel, key: u64) -> (m: MFile)
    requires
        k.wf(),
        k.fmap@.contains_key(key),
    ensures
        m == k.files@[k.fmap@[key]],
{
    let pos = match k.fmap.get(key) {
        Some(p) => *p,
        None => unreached(),
    };
    match k.files.get(pos) {
        Some(m) => *m,
        None => unreached(),
    }
}

impl MFileHandle {
    /// Registers entry `key` against the file position `(inode, offset)`.
    /// Entries mapping the same position share one record.
    pub fn map(k: &mut Kernel, key: u64, inode: u32, offset: usize) -> (h: MFileHandle)
        requires
            old(k).wf(),
            old(k).ptes@.contains_key(key),
            !old(k).frames@.contains_key(key),
            !old(k).fmap@.contains_key(key),
            !old(k).ptes@[key].v,
            offset % PAGE_SIZE == 0,
            offset / PAGE_SIZE < 0x100000000,
            old(k).file_rc_headroom(1),
        ensures
            h.key == key,
            final(k).wf(),
            final(k).ptes@ == old(k).ptes@,
            final(k).pool@ == old(k).pool@,
            final(k).frames@ == old(k).frames@,
            final(k).frames.pairs() == old(k).frames.pairs(),
            final(k).next_pt == old(k).next_pt,
            final(k).next_ppn == old(k).next_ppn,
            ({
                let pos = spec_pos_key(inode, offset);
                &&& final(k).fmap@ == old(k).fmap@.insert(key, pos)
                &&& final(k).files@ == old(k).files@.insert(pos, final(k).files@[pos])
                &&& (old(k).files@.contains_key(pos) ==> final(k).files@[pos] == (MFile {
                    rc: (old(k).files@[pos].rc + 1) as usize,
                    ..old(k).files@[pos]
                }) && old(k).files@[pos].inode == inode && old(k).files@[pos].offset == offset)
                &&& (!old(k).files@.contains_key(pos) ==> final(k).files@[pos] == (MFile {
                    inode,
                    offset,
                    rc: 1,
                    resident: None,
                }))
            }),
    {
        let pos = pos_key_of(inode, offset);
        let ghost omp = k.fmap.pairs();
        let ghost olp = k.files.pairs();
        k.fmap.insert(key, pos);
        let entry: MFile = match k.files.get(pos) {
            Some(m) => {
                proof {
                    lemma_pos_key_inj(m.inode, m.offset, inode, offset);
                }
                MFile { inode: m.inode, offset: m.offset, rc: m.rc + 1, resident: m.resident }
            },
            None => MFile { inode, offset, rc: 1, resident: None },
        };
        k.files.insert(pos, entry);
        proof {
            assert(k.fmap.pairs() == omp.push((key, pos)));
            if !old(k).files@.contains_key(pos) {
                assert forall|i: int| 0 <= i < omp.len() implies pos_w(pos)(#[trigger] omp[i])
                    == 0 by {
                    let e = omp[i];
                    lemma_assoc_at(omp, e.0, i);
                    assert(old(k).fmap@.contains_key(e.0));
                    assert(old(k).fmap@[e.0] == e.1);
                    assert(old(k).files@.contains_key(e.1));
                }
                crate::counting::lemma_wsum_all_zero(omp, pos_w(pos));
            }
            assert forall|pos2: u64| #[trigger] k.files@.contains_key(pos2) implies {
                let m = k.files@[pos2];
                &&& pos2 == spec_pos_key(m.inode, m.offset)
                &&& m.offset % PAGE_SIZE == 0
                &&& m.offset / PAGE_SIZE < 0x100000000
                &&& m.rc == k.pos_count(pos2)
                &&& match m.resident {
                    Some(p) => k.pool@.contains_key(p),
                    None => true,
                }
            } by {
                lemma_wsum_push(omp, (key, pos), pos_w(pos2));
                if pos2 != pos {
                    assert(old(k).files@.contains_key(pos2));
                    assert(k.files@[pos2] == old(k).files@[pos2]);
                } else {
                    if old(k).files@.contains_key(pos) {
                        let i = assoc_idx(olp, pos);
                        assert(olp[i] == (pos, old(k).files@[pos]));
                        assert(k.files.pairs() == olp.update(i, (pos, entry)));
                    } else {
                        assert(k.files.pairs() == olp.push((pos, entry)));
                    }
                }
            }
            assert forall|q: u64| #[trigger] k.pool@.contains_key(q) implies k.pool@[q].rc
                == k.frame_count(q) by {
                if old(k).files@.contains_key(pos) {
                    let i = assoc_idx(olp, pos);
                    assert(olp[i] == (pos, old(k).files@[pos]));
                    assert(k.files.pairs() == olp.update(i, (pos, entry)));
                    lemma_wsum_update(olp, i, (pos, entry), file_w(q));
                    assert(res_w(entry, q) == res_w(old(k).files@[pos], q));
                } else {
                    assert(k.files.pairs() == olp.push((pos, entry)));
                    lemma_wsum_push(olp, (pos, entry), file_w(q));
                    assert(res_w(entry, q) == 0);
                }
            }
        }
        MFileHandle { key }
    }

    /// Whether the shared record of this entry's position holds a resident
    /// frame.
    pub fn is_loaded(&self, k: &Kernel) -> (r: bool)
        requires
            k.wf(),
            k.fmap@.contains_key(self.key),
        ensures
            r == (k.files@[k.fmap@[self.key]].resident is Some),
    {
        matches!(get_mfile(k, self.key).resident, Some(_))
    }
}

impl MFileHandle {
    /// Faults this entry in: if no frame is resident for its position, a
    /// fresh frame is allocated and the file page is read into it; the
    /// entry is then validated with `perm`, pointing at the resident
    /// frame. Other sharers of the position stay invalid until they fault.
    pub fn load(&self, k: &mut Kernel, fs: &Fs, perm: Perm)
        requires
            old(k).wf(),
            old(k).fmap@.contains_key(self.key),
            fs.wf(),
            fs.has_inode(old(k).files@[old(k).fmap@[self.key]].inode),
            fs.inode(old(k).files@[old(k).fmap@[self.key]].inode).kind is File,
            old(k).can_alloc(1),
        ensures
            final(k).wf(),
            final(k).fmap@ == old(k).fmap@,
            final(k).fmap.pairs() == old(k).fmap.pairs(),
            final(k).frames@ == old(k).frames@,
            final(k).frames.pairs() == old(k).frames.pairs(),
            final(k).next_pt == old(k).next_pt,
            ({
                let pos = old(k).fmap@[self.key];
                let m = old(k).files@[pos];
                match m.resident {
                    Some(p) => final(k).ptes@ == old(k).ptes@.insert(
                        self.key,
                        Pte::spec_valid(p, perm),
                    ) && final(k).files@ == old(k).files@ && final(k).files.pairs() == old(k).files.pairs() && final(k).pool@ == old(k).pool@ && final(k).next_ppn == old(k).next_ppn,
                    None => {
                        let p = old(k).next_ppn;
                        &&& final(k).files@ == old(k).files@.insert(
                            pos,
                            MFile { resident: Some(p), ..m },
                        )
                        &&& !old(k).pool@.contains_key(p)
                        &&& final(k).pool@ == old(k).pool@.insert(p, final(k).pool@[p])
                        &&& final(k).pool@[p].rc == 1
                        &&& final(k).pool@[p].bytes@.len() == PAGE_SIZE
                        &&& (forall|i: int|
                            0 <= i < PAGE_SIZE ==> final(k).pool@[p].bytes@[i] == fs.byte_at(
                                m.inode,
                                m.offset + i,
                            ))
                        &&& final(k).ptes@ == old(k).ptes@.insert(
                            self.key,
                            Pte::spec_valid(p, perm),
                        )
                        &&& final(k).next_ppn == old(k).next_ppn + 1
                    },
                }
            }),
    {
        let m = get_mfile(k, self.key);
        let pos = match k.fmap.get(self.key) {
            Some(p) => *p,
            None => unreached(),
        };
        match m.resident {
            Some(p) => {
                k.ptes.insert(self.key, Pte::valid(p, perm));
                proof {
                    assert forall|k2: u64| #[trigger] k.frames@.contains_key(k2) implies
                        Kernel::rec_ok(k.frames@[k2], k.ptes@[k2], k.pool@) by {
                        assert(k2 != self.key);
                    }
                }
            },
            None => {
                let mut buf = zero_page();
                let ino = Inode::new(m.inode);
                let _ = ino.read_at(fs, m.offset, &mut buf);
                let p = k.next_ppn;
                proof {
                    lemma_count_not_pooled(*old(k), p);
                }
                k.next_ppn = k.next_ppn + 1;
                k.pool.insert(p, FrameEntry { rc: 1, bytes: buf });
                let ghost olp = k.files.pairs();
                let ghost idx = assoc_idx(olp, pos);
                let m2 = MFile { inode: m.inode, offset: m.offset, rc: m.rc, resident: Some(p) };
                k.files.insert(pos, m2);
                k.ptes.insert(self.key, Pte::valid(p, perm));
                proof {
                    assert(olp[idx] == (pos, m));
                    assert(k.files.pairs() == olp.update(idx, (pos, m2)));
                    assert(m2 == (MFile { resident: Some(p), ..m }));
                    assert forall|q: u64| #[trigger] k.pool@.contains_key(q) implies k.pool@[q].rc
                        == k.frame_count(q) by {
                        lemma_wsum_update(olp, idx, (pos, m2), file_w(q));
                        if q != p {
                            assert(old(k).pool@.contains_key(q));
                        }
                    }
                    assert forall|k2: u64| #[trigger] k.frames@.contains_key(k2) implies
                        Kernel::rec_ok(k.frames@[k2], k.ptes@[k2], k.pool@) by {
                        assert(k2 != self.key);
                        assert(old(k).frames@.contains_key(k2));
                    }
                    assert forall|pos2: u64| #[trigger] k.files@.contains_key(pos2) implies {
                        let mm = k.files@[pos2];
                        &&& pos2 == spec_pos_key(mm.inode, mm.offset)
                        &&& mm.offset % PAGE_SIZE == 0
                        &&& mm.offset / PAGE_SIZE < 0x100000000
                        &&& mm.rc == k.pos_count(pos2)
                        &&& match mm.resident {
                            Some(q) => k.pool@.contains_key(q),
                            None => true,
                        }
                    } by {
                        assert(old(k).files@.contains_key(pos2));
                        if pos2 != pos {
                            assert(k.files@[pos2] == old(k).files@[pos2]);
                        }
                    }
                }
            },
        }
    }

    /// Untracks this entry: its record is dropped and, when a frame was
    /// resident, the entry is invalidated. The shared position record
    /// stays, with one sharer fewer, until `slim` reclaims it.
    pub fn unmap(&self, k: &mut Kernel)
        requires
            old(k).wf(),
            old(k).fmap@.contains_key(self.key),
        ensures
            final(k).wf(),
            final(k).fmap@ == old(k).fmap@.remove(self.key),
            final(k).frames@ == old(k).frames@,
            final(k).frames.pairs() == old(k).frames.pairs(),
            final(k).pool@ == old(k).pool@,
            final(k).next_pt == old(k).next_pt,
            final(k).next_ppn == old(k).next_ppn,
            ({
                let pos = old(k).fmap@[self.key];
                let m = old(k).files@[pos];
                &&& m.rc >= 1
                &&& final(k).files@ == old(k).files@.insert(
                    pos,
                    MFile { rc: (m.rc - 1) as usize, ..m },
                )
                &&& (m.resident is Some ==> final(k).ptes@ == old(k).ptes@.insert(
                    self.key,
                    Pte::spec_invalid(),
                ))
                &&& (m.resident is None ==> final(k).ptes@ == old(k).ptes@)
            }),
    {
        let m = get_mfile(k, self.key);
        let pos = match k.fmap.get(self.key) {
            Some(p) => *p,
            None => unreached(),
        };
        let ghost omp = k.fmap.pairs();
        let ghost kidx = assoc_idx(omp, self.key);
        proof {
            assert(omp[kidx] == (self.key, pos));
            lemma_wsum_member(omp, kidx, pos_w(pos));
        }
        let _ = k.fmap.remove(self.key);
        let ghost olp = k.files.pairs();
        let ghost idx = assoc_idx(olp, pos);
        let m2 = MFile { inode: m.inode, offset: m.offset, rc: m.rc - 1, resident: m.resident };
        k.files.insert(pos, m2);
        if matches!(m.resident, Some(_)) {
            k.ptes.insert(self.key, Pte::invalid());
        }
        proof {
            assert(m2 == (MFile { rc: (m.rc - 1) as usize, ..m }));
            assert(olp[idx] == (pos, m));
            assert(k.files.pairs() == olp.update(idx, (pos, m2)));
            assert(k.fmap.pairs() == omp.remove(kidx));
            assert forall|q: u64| #[trigger] k.pool@.contains_key(q) implies k.pool@[q].rc
                == k.frame_count(q) by {
                lemma_wsum_update(olp, idx, (pos, m2), file_w(q));
            }
            assert forall|pos2: u64| #[trigger] k.files@.contains_key(pos2) implies {
                let mm = k.files@[pos2];
                &&& pos2 == spec_pos_key(mm.inode, mm.offset)
                &&& mm.offset % PAGE_SIZE == 0
                &&& mm.offset / PAGE_SIZE < 0x100000000
                &&& mm.rc == k.pos_count(pos2)
                &&& match mm.resident {
                    Some(q) => k.pool@.contains_key(q),
                    None => true,
                }
            } by {
                assert(old(k).files@.contains_key(pos2));
                lemma_wsum_remove(omp, kidx, pos_w(pos2));
                if pos2 != pos {
                    assert(k.files@[pos2] == old(k).files@[pos2]);
                }
            }
            assert forall|k2: u64| #[trigger] k.frames@.contains_key(k2) implies Kernel::rec_ok(
                k.frames@[k2],
                k.ptes@[k2],
                k.pool@,
            ) by {
                assert(k2 != self.key);
            }
        }
    }

    /// Registers the entry `other` against the same file position as this
    /// one, so both share the position's record and resident frame.
    pub fn share_fully(&self, k: &mut Kernel, other: u64) -> (h: MFileHandle)
        requires
            old(k).wf(),
            old(k).fmap@.contains_key(self.key),
            old(k).ptes@.contains_key(other),
            !old(k).frames@.contains_key(other),
            !old(k).fmap@.contains_key(other),
            !old(k).ptes@[other].v,
            old(k).file_rc_headroom(1),
        ensures
            h.key == other,
            final(k).wf(),
            final(k).ptes@ == old(k).ptes@,
            final(k).pool@ == old(k).pool@,
            final(k).frames@ == old(k).frames@,
            final(k).frames.pairs() == old(k).frames.pairs(),
            final(k).next_pt == old(k).next_pt,
            final(k).next_ppn == old(k).next_ppn,
            ({
                let pos = old(k).fmap@[self.key];
                let m = old(k).files@[pos];
                &&& final(k).fmap@ == old(k).fmap@.insert(other, pos)
                &&& final(k).files@ == old(k).files@.insert(
                    pos,
                    MFile { rc: (m.rc + 1) as usize, ..m },
                )
            }),
    {
        let m = get_mfile(k, self.key);
        let ghost pos = old(k).fmap@[self.key];
        proof {
            assert(pos == spec_pos_key(m.inode, m.offset));
        }
        let h = MFileHandle::map(k, other, m.inode, m.offset);
        proof {
            assert(final(k).files@[pos] == (MFile { rc: (m.rc + 1) as usize, ..m }));
        }
        h
    }

    /// Copies the bytes of this position's resident page into the pooled
    /// frame `dst`. The page must be resident.
    pub fn strict_dup(&self, k: &mut Kernel, dst: u64)
        requires
            old(k).wf(),
            old(k).fmap@.contains_key(self.key),
            old(k).files@[old(k).fmap@[self.key]].resident is Some,
            old(k).pool@.contains_key(dst),
            dst != old(k).files@[old(k).fmap@[self.key]].resident.unwrap(),
        ensures
            final(k).wf(),
            final(k).pool@ == old(k).pool@.insert(dst, final(k).pool@[dst]),
            final(k).pool@[dst].rc == old(k).pool@[dst].rc,
            final(k).pool@[dst].bytes@ == old(k).pool@[old(k).files@[old(k).fmap@[self.key]].resident.unwrap()].bytes@,
            final(k).ptes@ == old(k).ptes@,
            final(k).frames@ == old(k).frames@,
            final(k).frames.pairs() == old(k).frames.pairs(),
            final(k).files@ == old(k).files@,
            final(k).files.pairs() == old(k).files.pairs(),
            final(k).fmap@ == old(k).fmap@,
            final(k).fmap.pairs() == old(k).fmap.pairs(),
            final(k).next_pt == old(k).next_pt,
            final(k).next_ppn == old(k).next_ppn,
    {
        let m = get_mfile(k, self.key);
        let p = match m.resident {
            Some(p) => p,
            None => unreached(),
        };
        let src = match k.pool.get(p) {
            Some(e) => clone_bytes(&e.bytes),
            None => unreached(),
        };
        let e = match k.pool.remove(dst) {
            Some(e) => e,
            None => unreached(),
        };
        k.pool.insert(dst, FrameEntry { rc: e.rc, bytes: src });
        proof {
            assert(k.pool@ =~= old(k).pool@.insert(dst, k.pool@[dst]));
            assert forall|q: u64| #[trigger] k.pool@.contains_key(q) implies k.pool@[q].rc
                == k.frame_count(q) by {
                if q != dst {
                    assert(old(k).pool@.contains_key(q));
                }
            }
        }
    }
}

impl Kernel {
    /// What `slim` demands of the filesystem for every unreferenced
    /// resident page: its backing inode is a file already spanning the
    /// page, so writing it back extends nothing.
    pub open spec fn sync_ok(self, fs: Fs, pos: u64) -> bool {
        let m = self.files@[pos];
        m.resident is Some ==> fs.has_inode(m.inode) && fs.inode(m.inode).kind is File
            && m.offset + PAGE_SIZE <= fs.inode(m.inode).data@.len()
    }

    /// Drops the unreferenced position record `pos`, writing its resident
    /// page back to the backing inode and freeing the frame.
    fn sync_pos(&mut self, fs: &mut Fs, pos: u64)
        requires
            old(self).wf(),
            old(fs).wf(),
            old(fs).blocks_avail(),
            old(self).files@.contains_key(pos),
            old(self).files@[pos].rc == 0,
            old(self).sync_ok(*old(fs), pos),
        ensures
            final(self).wf(),
            final(fs).wf(),
            final(fs).blocks_avail(),
            final(self).files@ == old(self).files@.remove(pos),
            final(self).files.pairs() == old(self).files.pairs().remove(
                assoc_idx(old(self).files.pairs(), pos),
            ),
            final(self).fmap@ == old(self).fmap@,
            final(self).fmap.pairs() == old(self).fmap.pairs(),
            final(self).frames@ == old(self).frames@,
            final(self).frames.pairs() == old(self).frames.pairs(),
            final(self).ptes@ == old(self).ptes@,
            final(self).next_pt == old(self).next_pt,
            final(self).next_ppn == old(self).next_ppn,
            old(self).files@[pos].resident is None ==> final(self).pool@ == old(self).pool@
                && final(fs).inodes@ == old(fs).inodes@ && final(fs).free_blocks@ == old(fs).free_blocks@ && final(fs).next_block == old(fs).next_block && final(fs).free_inodes@
                == old(fs).free_inodes@ && final(fs).next_inode == old(fs).next_inode,
            old(self).files@[pos].resident matches Some(p) ==> ({
                let m = old(self).files@[pos];
                let od = old(fs).inode(m.inode);
                let nd = final(fs).inode(m.inode);
                &&& final(self).pool@ == old(self).pool@.remove(p)
                &&& final(fs).inodes@ == old(fs).inodes@.insert(m.inode as u64, nd)
                &&& nd.kind is File
                &&& nd.links == od.links
                &&& nd.size == od.size
                &&& nd.data@.len() == od.data@.len()
                &&& (forall|i: int|
                    0 <= i < PAGE_SIZE ==> nd.data@[m.offset + i] == old(self).pool@[p].bytes@[i])
                &&& (forall|j: int|
                    0 <= j < od.data@.len() && !(m.offset <= j < m.offset + PAGE_SIZE)
                        ==> nd.data@[j] == od.data@[j])
                &&& final(fs).free_blocks@ == old(fs).free_blocks@
                &&& final(fs).next_block == old(fs).next_block
                &&& final(fs).free_inodes@ == old(fs).free_inodes@
                &&& final(fs).next_inode == old(fs).next_inode
            }),
    {
        let m = match self.files.get(pos) {
            Some(m) => *m,
            None => unreached(),
        };
        let ghost olp = self.files.pairs();
        let ghost idx = assoc_idx(olp, pos);
        proof {
            assert(olp[idx] == (pos, m));
            assert forall|i: int| 0 <= i < old(self).fmap.pairs().len() implies pos_w(pos)(
                #[trigger] old(self).fmap.pairs()[i]) == 0 by {
                let e = old(self).fmap.pairs()[i];
                if e.1 == pos {
                    lemma_assoc_at(old(self).fmap.pairs(), e.0, i);
                    lemma_wsum_member(old(self).fmap.pairs(), i, pos_w(pos));
                }
            }
        }
        match m.resident {
            None => {
                let _ = self.files.remove(pos);
                proof {
                    assert(self.files.pairs() == olp.remove(idx));
                    assert forall|q: u64| #[trigger] self.pool@.contains_key(q) implies
                        self.pool@[q].rc == self.frame_count(q) by {
                        lemma_wsum_remove(olp, idx, file_w(q));
                    }
                    assert forall|k2: u64| #[trigger] self.fmap@.contains_key(k2) implies
                        self.ptes@.contains_key(k2) && self.files@.contains_key(self.fmap@[k2]) by {
                        let j = assoc_idx(old(self).fmap.pairs(), k2);
                        assert(old(self).fmap.pairs()[j] == (k2, self.fmap@[k2]));
                        assert(pos_w(pos)(old(self).fmap.pairs()[j]) == 0);
                    }
                }
            },
            Some(p) => {
                proof {
                    lemma_sole_res(*old(self), pos, p);
                }
                let buf = match self.pool.get(p) {
                    Some(e) => clone_bytes(&e.bytes),
                    None => unreached(),
                };
                let ino = Inode::new(m.inode);
                let ghost ofs = *fs;
                let _ = ino.write_at(fs, m.offset, &buf);
                proof {
                    assert(fs.free_blocks@.len() == ofs.free_blocks@.len());
                    assert(fs.free_blocks@ =~= ofs.free_blocks@);
                }
                let _ = self.files.remove(pos);
                let _ = self.pool.remove(p);
                proof {
                    assert(self.files.pairs() == olp.remove(idx));
                    assert forall|q: u64| #[trigger] self.pool@.contains_key(q) implies
                        self.pool@[q].rc == self.frame_count(q) by {
                        lemma_wsum_remove(olp, idx, file_w(q));
                        assert(q != p);
                        assert(old(self).pool@.contains_key(q));
                    }
                    assert forall|k2: u64| #[trigger] self.fmap@.contains_key(k2) implies
                        self.ptes@.contains_key(k2) && self.files@.contains_key(self.fmap@[k2]) by {
                        let j = assoc_idx(old(self).fmap.pairs(), k2);
                        assert(old(self).fmap.pairs()[j] == (k2, self.fmap@[k2]));
                        assert(pos_w(pos)(old(self).fmap.pairs()[j]) == 0);
                    }
                    assert forall|k2: u64| #[trigger] self.frames@.contains_key(k2) implies
                        Kernel::rec_ok(self.frames@[k2], self.ptes@[k2], self.pool@) by {
                        assert(rec_frame(old(self).frames@[k2]) != Some(p));
                    }
                }
            },
        }
    }

    /// Writes every unreferenced resident file page back to its inode,
    /// frees its frame, and drops its record; positions that still have
    /// sharers are left untouched.
    /// Every position record has a sharer.
    pub open spec fn all_clean(self) -> bool {
        forall|pos: u64| #[trigger] self.files@.contains_key(pos) ==> self.files@[pos].rc > 0
    }

    /// `pos` is the one and only position record without sharers.
    pub open spec fn lone_dirty(self, pos: u64) -> bool {
        &&& self.files@.contains_key(pos)
        &&& self.files@[pos].rc == 0
        &&& forall|pos2: u64|
            #[trigger] self.files@.contains_key(pos2) && self.files@[pos2].rc == 0 ==> pos2 == pos
    }

    /// What reclaiming the unreferenced position `pos` does to the state:
    /// its record disappears; a resident page is written back to its place
    /// in the backing inode and its frame leaves the pool, with no block
    /// or inode allocated or freed.
    pub open spec fn sync_outcome(self, fs0: Fs, k1: Kernel, fs1: Fs, pos: u64) -> bool {
        let m = self.files@[pos];
        &&& k1.files@ == self.files@.remove(pos)
        &&& match m.resident {
            None => k1.pool@ == self.pool@ && fs1.inodes@ == fs0.inodes@ && fs1.free_blocks@
                == fs0.free_blocks@ && fs1.next_block == fs0.next_block,
            Some(p) => {
                let od = fs0.inode(m.inode);
                let nd = fs1.inode(m.inode);
                &&& k1.pool@ == self.pool@.remove(p)
                &&& fs1.inodes@ == fs0.inodes@.insert(m.inode as u64, nd)
                &&& nd.kind is File
                &&& nd.links == od.links
                &&& nd.size == od.size
                &&& (forall|i: int|
                    0 <= i < PAGE_SIZE ==> nd.data@[m.offset + i] == self.pool@[p].bytes@[i])
                &&& (forall|j: int|
                    0 <= j < od.data@.len() && !(m.offset <= j < m.offset + PAGE_SIZE)
                        ==> nd.data@[j] == od.data@[j])
                &&& fs1.free_blocks@ == fs0.free_blocks@
                &&& fs1.next_block == fs0.next_block
            },
        }
    }

    /// Writes every unreferenced resident file page back to its inode,
    /// frees its frame, and drops its record; positions that still have
    /// sharers are left untouched.
    #[verifier::rlimit(100)]
    pub fn slim(&mut self, fs: &mut Fs)
        requires
            old(self).wf(),
            old(fs).wf(),
            old(fs).blocks_avail(),
            forall|pos: u64|
                #[trigger] old(self).files@.contains_key(pos) && old(self).files@[pos].rc == 0
                    ==> old(self).sync_ok(*old(fs), pos),
        ensures
            final(self).wf(),
            final(fs).wf(),
            final(self).fmap@ == old(self).fmap@,
            final(self).fmap.pairs() == old(self).fmap.pairs(),
            final(self).frames@ == old(self).frames@,
            final(self).frames.pairs() == old(self).frames.pairs(),
            final(self).ptes@ == old(self).ptes@,
            final(self).next_pt == old(self).next_pt,
            final(self).next_ppn == old(self).next_ppn,
            forall|pos: u64| #[trigger] final(self).files@.contains_key(pos) <==> (old(self).files@.contains_key(pos) && old(self).files@[pos].rc > 0),
            forall|pos: u64|
                #[trigger] old(self).files@.contains_key(pos) && old(self).files@[pos].rc > 0
                    ==> final(self).files@[pos] == old(self).files@[pos],
            old(self).all_clean() ==> final(self).files@ == old(self).files@ && final(self).pool@
                == old(self).pool@ && final(fs).inodes@ == old(fs).inodes@ && final(fs).free_blocks@
                == old(fs).free_blocks@ && final(fs).next_block == old(fs).next_block
                && final(fs).free_inodes@ == old(fs).free_inodes@ && final(fs).next_inode
                == old(fs).next_inode,
            forall|p: u64|
                #[trigger] final(self).pool@.contains_key(p) ==> old(self).pool@.contains_key(p)
                    && final(self).pool@[p] == old(self).pool@[p],
            final(fs).free_blocks@ == old(fs).free_blocks@,
            final(fs).next_block == old(fs).next_block,
            final(fs).free_inodes@ == old(fs).free_inodes@,
            final(fs).next_inode == old(fs).next_inode,
            forall|id: u64|
                #[trigger] final(fs).inodes@.contains_key(id) <==> old(fs).inodes@.contains_key(
                    id,
                ),
            forall|id: u64|
                #[trigger] final(fs).inodes@.contains_key(id) ==> final(fs).inodes@[id].kind
                    == old(fs).inodes@[id].kind && final(fs).inodes@[id].links == old(fs).inodes@[id].links && final(fs).inodes@[id].size == old(fs).inodes@[id].size
                    && final(fs).inodes@[id].data@.len() == old(fs).inodes@[id].data@.len(),
            forall|pos: u64| #[trigger] old(self).lone_dirty(pos) ==> old(self).sync_outcome(
                *old(fs),
                *final(self),
                *final(fs),
                pos,
            ),
    {
        let first = self.find_dirty();
        let pos0 = match first {
            None => {
                return ;
            },
            Some(pos0) => pos0,
        };
        self.sync_pos(fs, pos0);
        let ghost snapk = *self;
        let ghost snapfs = *fs;
        proof {
            assert forall|pos: u64| #[trigger] old(self).lone_dirty(pos) implies pos == pos0
                && snapk.all_clean() && old(self).sync_outcome(*old(fs), snapk, snapfs, pos) by {
                assert(pos == pos0);
                assert forall|pos2: u64| #[trigger] snapk.files@.contains_key(pos2) implies
                    snapk.files@[pos2].rc > 0 by {
                    assert(old(self).files@.contains_key(pos2));
                    assert(pos2 != pos0);
                }
            }
        }
        loop
            invariant
                self.wf(),
                fs.wf(),
                fs.blocks_avail(),
                self.fmap@ == old(self).fmap@,
                self.fmap.pairs() == old(self).fmap.pairs(),
                self.frames@ == old(self).frames@,
                self.frames.pairs() == old(self).frames.pairs(),
                self.ptes@ == old(self).ptes@,
                self.next_pt == old(self).next_pt,
                self.next_ppn == old(self).next_ppn,
                !old(self).all_clean(),
                old(self).files@.contains_key(pos0) && old(self).files@[pos0].rc == 0,
                forall|pos: u64| #[trigger] self.files@.contains_key(pos) ==> old(self).files@.contains_key(pos) && self.files@[pos] == old(self).files@[pos],
                forall|pos: u64|
                    #[trigger] old(self).files@.contains_key(pos) && old(self).files@[pos].rc > 0
                        ==> self.files@.contains_key(pos),
                forall|pos: u64|
                    #[trigger] self.files@.contains_key(pos) && self.files@[pos].rc == 0
                        ==> self.sync_ok(*fs, pos),
                forall|pos: u64| #[trigger] old(self).lone_dirty(pos) ==> pos == pos0
                    && snapk.all_clean() && old(self).sync_outcome(*old(fs), snapk, snapfs, pos),
                snapk.all_clean() ==> (self.files@ == snapk.files@ && self.pool@ == snapk.pool@
                    && fs.inodes@ == snapfs.inodes@ && fs.free_blocks@ == snapfs.free_blocks@
                    && fs.next_block == snapfs.next_block && fs.free_inodes@
                    == snapfs.free_inodes@ && fs.next_inode == snapfs.next_inode),
                forall|p: u64|
                    #[trigger] self.pool@.contains_key(p) ==> old(self).pool@.contains_key(p)
                        && self.pool@[p] == old(self).pool@[p],
                fs.free_blocks@ == old(fs).free_blocks@,
                fs.next_block == old(fs).next_block,
                fs.free_inodes@ == old(fs).free_inodes@,
                fs.next_inode == old(fs).next_inode,
                forall|id: u64|
                    #[trigger] fs.inodes@.contains_key(id) <==> old(fs).inodes@.contains_key(id),
                forall|id: u64|
                    #[trigger] fs.inodes@.contains_key(id) ==> fs.inodes@[id].kind == old(fs).inodes@[id].kind && fs.inodes@[id].links == old(fs).inodes@[id].links
                        && fs.inodes@[id].size == old(fs).inodes@[id].size
                        && fs.inodes@[id].data@.len() == old(fs).inodes@[id].data@.len(),
            decreases self.files.pairs().len(),
        {
            let found = self.find_dirty();
            match found {
                None => {
                    return ;
                },
                Some(pos) => {
                    proof {
                        if snapk.all_clean() {
                            assert(self.files@ == snapk.files@);
                            assert(snapk.files@.contains_key(pos));
                            assert(false);
                        }
                    }
                    self.sync_pos(fs, pos);
                },
            }
        }
    }
}

impl Kernel {
    /// Finds a position record with no remaining sharer, if one exists.
    fn find_dirty(&self) -> (r: Option<u64>)
        requires
            self.wf(),
        ensures
            match r {
                Some(pos) => self.files@.contains_key(pos) && self.files@[pos].rc == 0,
                None => forall|pos: u64|
                    #[trigger] self.files@.contains_key(pos) ==> self.files@[pos].rc > 0,
            },
    {
        let mut i: usize = 0;
        while i < self.files.len()
            invariant
                self.wf(),
                i <= self.files.pairs().len(),
                forall|j: int| 0 <= j < i ==> (#[trigger] self.files.pairs()[j]).1.rc > 0,
            decreases self.files.pairs().len() - i,
        {
            let key = self.files.key_at(i);
            let e = match self.files.get(key) {
                Some(e) => *e,
                None => unreached(),
            };
            proof {
                lemma_assoc_at(self.files.pairs(), key, i as int);
            }
            if e.rc == 0 {
                return Some(key);
            }
            i = i + 1;
        }
        proof {
            assert forall|pos: u64| #[trigger] self.files@.contains_key(pos) implies
                self.files@[pos].rc > 0 by {
                let j = assoc_idx(self.files.pairs(), pos);
                assert(self.files.pairs()[j] == (pos, self.files@[pos]));
            }
        }
        None
    }
}

/// Computes the packed position key.
pub fn pos_key_of(inode: u32, offset: usize) -> (pos: u64)
    requires
        offset / PAGE_SIZE < 0x100000000,
    ensures
        pos == spec_pos_key(inode, offset),
{
    (inode as u64) * 0x100000000 + ((offset / PAGE_SIZE) as u64)
}

} // verus!
