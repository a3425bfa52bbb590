//! The machine state that the virtual-memory subsystem works on: every leaf
//! page-table entry of every address space, the pool of allocated physical
//! frames, and the two per-entry ownership trackers (frames here, file
//! mappings in the file-tracker module).
//!
//! Entries are keyed by the pair of page-table id and virtual page number,
//! packed into one `u64`; that key stands for the address of the leaf entry
//! in page-table memory, so each address space's mapping of the same range
//! carries its own records. Each pool frame keeps a reference count, and the
//! central invariant says that the count equals the number of tracker
//! records and resident file mappings that point at the frame.

use vstd::prelude::*;
use crate::cfg::{PAGE_SIZE, VPN_LIMIT};
use crate::counting::{
    lemma_wsum_all_zero, lemma_wsum_member, lemma_wsum_push, lemma_wsum_remove,
    lemma_wsum_two, lemma_wsum_update, wsum,
};
use crate::kvmap::{assoc_has, assoc_idx, lemma_assoc_at, KvMap};
use crate::pte::{Perm, Pte};

verus! {

/// Exclusive upper bound of page-table ids, so that packed entry keys fit
/// in a `u64`.
pub const PT_MAX: u64 = 0x1000000000;

/// The packed key of the leaf entry for `vpn` in page table `pt`.
pub open spec fn spec_pte_key(pt: u64, vpn: usize) -> u64 {
    (pt * (VPN_LIMIT as u64) + vpn as u64) as u64
}

/// Packs a page-table id and a virtual page number into an entry key.
pub fn pte_key(pt: u64, vpn: usize) -> (k: u64)
    requires
        pt < PT_MAX,
        vpn < VPN_LIMIT,
    ensures
        k == spec_pte_key(pt, vpn),
{
    proof {
        assert(pt * (VPN_LIMIT as u64) + vpn < 0x10000000000000000) by (nonlinear_arith)
            requires
                pt < 0x1000000000u64,
                vpn < 0x8000000usize,
        ;
    }
    pt * (VPN_LIMIT as u64) + (vpn as u64)
}

/// Distinct (page table, page) pairs pack to distinct keys.
pub proof fn lemma_pte_key_inj(pt1: u64, vpn1: usize, pt2: u64, vpn2: usize)
    requires
        pt1 < PT_MAX,
        vpn1 < VPN_LIMIT,
        pt2 < PT_MAX,
        vpn2 < VPN_LIMIT,
        spec_pte_key(pt1, vpn1) == spec_pte_key(pt2, vpn2),
    ensures
        pt1 == pt2,
        vpn1 == vpn2,
{
    assert(pt1 == pt2 && vpn1 == vpn2) by (nonlinear_arith)
        requires
            pt1 < 0x1000000000u64,
            vpn1 < 0x8000000usize,
            pt2 < 0x1000000000u64,
            vpn2 < 0x8000000usize,
            pt1 * 0x8000000 + vpn1 == pt2 * 0x8000000 + vpn2,
    ;
}

/// Distinct pages of one table have distinct keys.
pub proof fn lemma_key_ne(pt: u64, a: usize, b: usize)
    requires
        pt < PT_MAX,
        a < VPN_LIMIT,
        b < VPN_LIMIT,
        a != b,
    ensures
        spec_pte_key(pt, a) != spec_pte_key(pt, b),
{
    if spec_pte_key(pt, a) == spec_pte_key(pt, b) {
        lemma_pte_key_inj(pt, a, pt, b);
    }
}

/// One frame-tracker record: the ownership state of the page behind one
/// page-table entry.
#[derive(Clone, Copy, PartialEq, Eq, Structural, Debug)]
pub enum FrameRec {
    /// Tracked but not yet backed by a frame; the entry is invalid.
    Lazy,
    /// Exclusively owns the named frame.
    Owned(u64),
    /// Shares the named frame copy-on-write; the entry's write bit is off.
    Cow(u64),
}

/// The frame a record points at, if any.
pub open spec fn rec_frame(r: FrameRec) -> Option<u64> {
    match r {
        FrameRec::Lazy => None,
        FrameRec::Owned(p) => Some(p),
        FrameRec::Cow(p) => Some(p),
    }
}

/// How many references record `r` holds on frame `p`: one or none.
pub open spec fn rec_w(r: FrameRec, p: u64) -> nat {
    if rec_frame(r) == Some(p) {
        1
    } else {
        0
    }
}

/// One file-tracker record shared by every entry mapping the same file
/// position: the backing position and the resident frame, if one is loaded.
#[derive(Clone, Copy, PartialEq, Eq, Structural, Debug)]
pub struct MFile {
    pub inode: u32,
    pub offset: usize,
    pub rc: usize,
    pub resident: Option<u64>,
}

/// How many references the resident frame of `m` holds on frame `p`.
pub open spec fn res_w(m: MFile, p: u64) -> nat {
    if m.resident == Some(p) {
        1
    } else {
        0
    }
}

/// The packed key of the file position (inode, page-aligned offset).
pub open spec fn spec_pos_key(inode: u32, offset: usize) -> u64 {
    ((inode as u64) * 0x100000000 + (offset as u64) / (PAGE_SIZE as u64)) as u64
}

/// One allocated physical frame: its reference count and its 4 KiB of
/// contents.
pub struct FrameEntry {
    pub rc: usize,
    pub bytes: Vec<u8>,
}

/// The weight function counting tracker references on frame `p`.
pub open spec fn frame_w(p: u64) -> spec_fn((u64, FrameRec)) -> nat {
    |e: (u64, FrameRec)| rec_w(e.1, p)
}

/// The weight function counting resident file mappings on frame `p`.
pub open spec fn file_w(p: u64) -> spec_fn((u64, MFile)) -> nat {
    |e: (u64, MFile)| res_w(e.1, p)
}

/// The weight function counting entry records on file position `pos`.
pub open spec fn pos_w(pos: u64) -> spec_fn((u64, u64)) -> nat {
    |e: (u64, u64)| if e.1 == pos {
        1nat
    } else {
        0nat
    }
}

pub struct Kernel {
    /// Every leaf page-table entry, keyed by `spec_pte_key`.
    pub ptes: KvMap<Pte>,
    /// Every allocated physical frame, keyed by physical page number.
    pub pool: KvMap<FrameEntry>,
    /// The frame tracker: per-entry ownership records.
    pub frames: KvMap<FrameRec>,
    /// The file tracker's shared per-position records, keyed by
    /// `spec_pos_key`.
    pub files: KvMap<MFile>,
    /// The file tracker's per-entry records: entry key to position key.
    pub fmap: KvMap<u64>,
    /// The next unused page-table id.
    pub next_pt: u64,
    /// The next unused physical page number.
    pub next_ppn: u64,
}

impl Kernel {
    /// The number of references held on frame `p` by frame-tracker records
    /// and resident file mappings together.
    pub open spec fn frame_count(self, p: u64) -> nat {
        wsum(self.frames.pairs(), frame_w(p)) + wsum(self.files.pairs(), file_w(p))
    }

    /// The number of entry records that share file position `pos`.
    pub open spec fn pos_count(self, pos: u64) -> nat {
        wsum(self.fmap.pairs(), pos_w(pos))
    }

    /// The backing stores are well-formed association maps.
    pub open spec fn maps_ok(self) -> bool {
        &&& self.ptes.wf() && self.ptes.lengths_ok()
        &&& self.pool.wf() && self.pool.lengths_ok()
        &&& self.frames.wf() && self.frames.lengths_ok()
        &&& self.files.wf() && self.files.lengths_ok()
        &&& self.fmap.wf() && self.fmap.lengths_ok()
    }

    /// Every record belongs to an existing entry, and no entry is tracked
    /// by both trackers at once.
    pub open spec fn dom_ok(self) -> bool {
        &&& forall|k: u64| #[trigger] self.frames@.contains_key(k) ==> self.ptes@.contains_key(k)
            && !self.fmap@.contains_key(k)
        &&& forall|k: u64| #[trigger] self.fmap@.contains_key(k) ==> self.ptes@.contains_key(k)
            && self.files@.contains_key(self.fmap@[k])
    }

    /// What a frame-tracker record pins down about its entry: a lazy record
    /// keeps the entry invalid; an owning or sharing record keeps it valid
    /// and aimed at a pooled frame, with the write bit off while shared.
    pub open spec fn rec_ok(r: FrameRec, pte: Pte, pool: Map<u64, FrameEntry>) -> bool {
        match r {
            FrameRec::Lazy => !pte.v,
            FrameRec::Owned(p) => pte.v && pte.ppn == p && pool.contains_key(p),
            FrameRec::Cow(p) => pte.v && !pte.w && pte.ppn == p && pool.contains_key(p),
        }
    }

    pub open spec fn recs_ok(self) -> bool {
        forall|k: u64| #[trigger] self.frames@.contains_key(k) ==> Self::rec_ok(
            self.frames@[k],
            self.ptes@[k],
            self.pool@,
        )
    }

    /// An owning record is alone: its frame's count is one.
    pub open spec fn owned_excl(self) -> bool {
        forall|k: u64| #[trigger] self.frames@.contains_key(k) && self.frames@[k] is Owned
            ==> self.pool@[rec_frame(self.frames@[k]).unwrap()].rc == 1
    }

    /// What a shared file record pins down: its key matches its position,
    /// the offset is page-aligned, its count is right, and a resident frame
    /// is pooled.
    pub open spec fn files_ok(self) -> bool {
        forall|pos: u64| #[trigger] self.files@.contains_key(pos) ==> {
            let m = self.files@[pos];
            &&& pos == spec_pos_key(m.inode, m.offset)
            &&& m.offset % PAGE_SIZE == 0
            &&& m.offset / PAGE_SIZE < 0x100000000
            &&& m.rc == self.pos_count(pos)
            &&& match m.resident {
                Some(p) => self.pool@.contains_key(p),
                None => true,
            }
        }
    }

    /// A resident frame is held by its position record alone.
    pub open spec fn res_excl(self) -> bool {
        forall|pos: u64|
            #[trigger] self.files@.contains_key(pos) && self.files@[pos].resident is Some
                ==> self.pool@[self.files@[pos].resident.unwrap()].rc == 1
    }

    /// A valid entry under the file tracker maps the resident frame of its
    /// position; while no frame is resident every such entry is invalid.
    pub open spec fn fmap_ok(self) -> bool {
        forall|k: u64| #[trigger] self.fmap@.contains_key(k) ==> (self.ptes@[k].v
            ==> self.files@[self.fmap@[k]].resident == Some(self.ptes@[k].ppn))
    }

    /// Every pooled frame's reference count equals the number of records
    /// pointing at it, its contents span one page, and its number was
    /// handed out by the allocator.
    pub open spec fn pool_ok(self) -> bool {
        forall|p: u64| #[trigger] self.pool@.contains_key(p) ==> {
            let e = self.pool@[p];
            &&& e.rc == self.frame_count(p)
            &&& e.bytes@.len() == PAGE_SIZE
            &&& p < self.next_ppn
        }
    }

    /// Every entry key names a page of an already handed-out page table.
    pub open spec fn keys_ok(self) -> bool {
        forall|key: u64| #[trigger] self.ptes@.contains_key(key) ==> key < self.next_pt * (
        VPN_LIMIT as u64)
    }

    pub open spec fn wf(self) -> bool {
        &&& self.maps_ok()
        &&& self.keys_ok()
        &&& self.dom_ok()
        &&& self.recs_ok()
        &&& self.owned_excl()
        &&& self.files_ok()
        &&& self.res_excl()
        &&& self.fmap_ok()
        &&& self.pool_ok()
        &&& self.next_pt <= PT_MAX
    }

    /// Room to allocate `n` more frames.
    pub open spec fn can_alloc(self, n: nat) -> bool {
        self.next_ppn + n <= u64::MAX
    }

    /// Room to add `n` more references on every pooled frame.
    pub open spec fn rc_headroom(self, n: nat) -> bool {
        forall|p: u64| #[trigger] self.pool@.contains_key(p) ==> self.pool@[p].rc + n
            <= usize::MAX
    }

    /// Room to register `n` more sharers on every file position.
    pub open spec fn file_rc_headroom(self, n: nat) -> bool {
        forall|pos: u64| #[trigger] self.files@.contains_key(pos) ==> self.files@[pos].rc + n
            <= usize::MAX
    }

    /// Builds a kernel with no page tables, no frames and no records.
    pub fn new() -> (k: Kernel)
        ensures
            k.wf(),
            k.ptes@ =~= Map::<u64, Pte>::empty(),
            k.pool@ =~= Map::<u64, FrameEntry>::empty(),
            k.frames@ =~= Map::<u64, FrameRec>::empty(),
            k.files@ =~= Map::<u64, MFile>::empty(),
            k.fmap@ =~= Map::<u64, u64>::empty(),
            k.next_pt == 0,
            k.next_ppn == 0,
    {
        Kernel {
            ptes: KvMap::new(),
            pool: KvMap::new(),
            frames: KvMap::new(),
            files: KvMap::new(),
            fmap: KvMap::new(),
            next_pt: 0,
            next_ppn: 0,
        }
    }

    /// Hands out a fresh page-table id.
    pub fn new_pt(&mut self) -> (pt: u64)
        requires
            old(self).wf(),
            old(self).next_pt < PT_MAX,
        ensures
            final(self).wf(),
            pt == old(self).next_pt,
            final(self).next_pt == old(self).next_pt + 1,
            final(self).ptes@ == old(self).ptes@,
            final(self).pool@ == old(self).pool@,
            final(self).frames@ == old(self).frames@,
            final(self).files@ == old(self).files@,
            final(self).fmap@ == old(self).fmap@,
            final(self).next_ppn == old(self).next_ppn,
            final(self).frames.pairs() == old(self).frames.pairs(),
            final(self).files.pairs() == old(self).files.pairs(),
            final(self).fmap.pairs() == old(self).fmap.pairs(),
    {
        let pt = self.next_pt;
        self.next_pt = self.next_pt + 1;
        pt
    }

    /// Walks to the leaf entry for `key`, creating an invalid entry if the
    /// slot did not exist yet.
    pub fn create_force(&mut self, key: u64)
        requires
            old(self).wf(),
            key < old(self).next_pt * (VPN_LIMIT as u64),
        ensures
            final(self).wf(),
            final(self).ptes@.contains_key(key),
            old(self).ptes@.contains_key(key) ==> final(self).ptes@ == old(self).ptes@,
            !old(self).ptes@.contains_key(key) ==> final(self).ptes@ == old(self).ptes@.insert(
                key,
                Pte::spec_invalid(),
            ),
            !old(self).ptes@.contains_key(key) ==> !old(self).frames@.contains_key(key)
                && !old(self).fmap@.contains_key(key),
            final(self).pool@ == old(self).pool@,
            final(self).frames@ == old(self).frames@,
            final(self).files@ == old(self).files@,
            final(self).fmap@ == old(self).fmap@,
            final(self).next_pt == old(self).next_pt,
            final(self).next_ppn == old(self).next_ppn,
            final(self).frames.pairs() == old(self).frames.pairs(),
            final(self).files.pairs() == old(self).files.pairs(),
            final(self).fmap.pairs() == old(self).fmap.pairs(),
    {
        if !self.ptes.contains(key) {
            self.ptes.insert(key, Pte::invalid());
        }
    }

    /// Reads the leaf entry for `key`, if the slot exists.
    pub fn get_pte(&self, key: u64) -> (r: Option<Pte>)
        requires
            self.wf(),
        ensures
            match r {
                Some(e) => self.ptes@.contains_key(key) && e == self.ptes@[key],
                None => !self.ptes@.contains_key(key),
            },
    {
        match self.ptes.get(key) {
            Some(e) => Some(*e),
            None => None,
        }
    }

    /// Writes a leaf entry that no tracker governs: identity mappings and
    /// the trampoline are stamped directly, and dropping them clears the
    /// entry the same way.
    pub fn write_untracked_pte(&mut self, key: u64, e: Pte)
        requires
            old(self).wf(),
            old(self).ptes@.contains_key(key),
            !old(self).frames@.contains_key(key),
            !old(self).fmap@.contains_key(key),
        ensures
            final(self).wf(),
            final(self).ptes@ == old(self).ptes@.insert(key, e),
            final(self).pool@ == old(self).pool@,
            final(self).frames@ == old(self).frames@,
            final(self).files@ == old(self).files@,
            final(self).fmap@ == old(self).fmap@,
            final(self).frames.pairs() == old(self).frames.pairs(),
            final(self).files.pairs() == old(self).files.pairs(),
            final(self).fmap.pairs() == old(self).fmap.pairs(),
            final(self).next_pt == old(self).next_pt,
            final(self).next_ppn == old(self).next_ppn,
    {
        self.ptes.insert(key, e);
        proof {
            assert forall|k2: u64| #[trigger] self.frames@.contains_key(k2) implies Self::rec_ok(
                self.frames@[k2],
                self.ptes@[k2],
                self.pool@,
            ) by {
                assert(k2 != key);
            }
        }
    }

    /// Reads one byte of a pooled frame.
    pub fn read_byte(&self, p: u64, i: usize) -> (b: u8)
        requires
            self.wf(),
            self.pool@.contains_key(p),
            i < PAGE_SIZE,
        ensures
            b == self.pool@[p].bytes@[i as int],
    {
        let e = self.pool.get(p);
        match e {
            Some(e) => e.bytes[i],
            None => {
                proof {
                    assert(false);
                }
                0
            },
        }
    }
}

/// Builds one zeroed page of bytes.
pub fn zero_page() -> (v: Vec<u8>)
    ensures
        v@.len() == PAGE_SIZE,
        forall|i: int| 0 <= i < PAGE_SIZE ==> v@[i] == 0u8,
{
    let mut v: Vec<u8> = Vec::new();
    while v.len() < PAGE_SIZE
        invariant
            v@.len() <= PAGE_SIZE,
            forall|i: int| 0 <= i < v@.len() ==> v@[i] == 0u8,
        decreases PAGE_SIZE - v@.len(),
    {
        v.push(0u8);
    }
    v
}

/// Copies a byte vector.
pub fn clone_bytes(src: &Vec<u8>) -> (v: Vec<u8>)
    ensures
        v@ == src@,
{
    let mut v: Vec<u8> = Vec::new();
    let mut i: usize = 0;
    while i < src.len()
        invariant
            i <= src@.len(),
            v@.len() == i,
            forall|j: int| 0 <= j < i ==> v@[j] == src@[j],
        decreases src@.len() - i,
    {
        v.push(src[i]);
        i = i + 1;
    }
    proof {
        assert(v@ =~= src@);
    }
    v
}

} // verus!
