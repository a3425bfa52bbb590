//! Map areas and address spaces: contiguous virtual-page runs under one
//! policy and permission, grouped into an address space with its own page
//! table, supporting mapping, splitting and merging of areas, and
//! page-fault resolution by delegation to the ownership trackers.

use vstd::prelude::*;
use vstd::pervasive::unreached;
use crate::cfg::{spec_vpn_of, spec_vpn_up, PAGE_SIZE, VPN_LIMIT};
use crate::kernel::{spec_pos_key, spec_pte_key, pte_key, FrameRec, Kernel};
use crate::kvmap::KvMap;
use crate::mfile::{lemma_pos_key_inj, MFileHandle};
use crate::mframe::MFrameHandle;
use crate::pte::{Perm, Pte};
use crate::vfs::Inode;

verus! {

/// The policy of a map area.
#[derive(Clone, Copy, PartialEq, Eq, Structural, Debug)]
pub enum MapType {
    /// Page number maps to the equal frame number; used for kernel text,
    /// data, physical memory and device registers.
    Identity,
    /// RAM-backed pages, allocated lazily and shared copy-on-write on
    /// fork.
    Framed,
    /// File-backed pages whose writes reach the shared resident frame.
    FileShared,
    /// File-backed pages that turn into private RAM pages on first write.
    FilePriv,
}

/// The access that raised a page fault.
#[derive(Clone, Copy, PartialEq, Eq, Structural, Debug)]
pub enum PageFaultType {
    Load,
    Store,
    Instruction,
}

/// A page fault, bundled for routing.
#[derive(Clone, Copy, PartialEq, Eq, Structural, Debug)]
pub struct PageFault {
    pub fault_type: PageFaultType,
    pub addr: usize,
}

impl PageFault {
    /// Bundles a fault.
    pub fn new(fault_type: PageFaultType, addr: usize) -> (f: PageFault)
        ensures
            f.fault_type == fault_type,
            f.addr == addr,
    {
        PageFault { fault_type, addr }
    }
}

/// The per-page record of an area: which tracker, if any, governs the
/// page's entry.
#[derive(Clone, Copy, Debug)]
pub enum Page {
    /// Stamped directly; no tracker record.
    Identity,
    /// Governed by the frame tracker.
    Framed(MFrameHandle),
    /// Governed by the file tracker, shared.
    FileShared(MFileHandle),
    /// Governed by the file tracker until first write.
    FilePriv(MFileHandle),
}

/// A contiguous run of virtual pages under one policy and permission.
pub struct MapArea {
    pub start_vpn: usize,
    pub end_vpn: usize,
    pub pages: KvMap<Page>,
    pub map_type: MapType,
    pub map_perm: Perm,
    pub file: Option<Inode>,
    pub file_offset: usize,
}

impl MapArea {
    pub open spec fn contains_vpn(self, v: usize) -> bool {
        self.start_vpn <= v < self.end_vpn
    }

    pub open spec fn disjoint(self, other: MapArea) -> bool {
        self.end_vpn <= other.start_vpn || other.end_vpn <= self.start_vpn || self.start_vpn
            == self.end_vpn || other.start_vpn == other.end_vpn
    }

    /// The policy's demands on the backing file fields.
    pub open spec fn file_ok(self) -> bool {
        match self.map_type {
            MapType::Identity | MapType::Framed => self.file is None && self.file_offset == 0,
            MapType::FileShared | MapType::FilePriv => {
                &&& self.file is Some
                &&& self.file_offset % PAGE_SIZE == 0
                &&& self.file_offset / PAGE_SIZE + (self.end_vpn - self.start_vpn) < 0x100000000
                &&& self.file_offset + (self.end_vpn - self.start_vpn) * PAGE_SIZE <= usize::MAX
            },
        }
    }

    /// The packed position key that page `v` of this file-backed area
    /// maps.
    pub open spec fn spec_page_pos(self, v: usize) -> u64 {
        spec_pos_key(
            self.file.unwrap().id,
            (self.file_offset + (v - self.start_vpn) * PAGE_SIZE) as usize,
        )
    }

    /// What one page record pins down about its entry and the trackers.
    pub open spec fn page_ok(pg: Page, pt: u64, vpn: usize, a: MapArea, k: Kernel) -> bool {
        let key = spec_pte_key(pt, vpn);
        match pg {
            Page::Identity => {
                &&& a.map_type is Identity
                &&& !k.frames@.contains_key(key)
                &&& !k.fmap@.contains_key(key)
                &&& k.ptes@.contains_key(key)
                &&& k.ptes@[key] == Pte::spec_valid(vpn as u64, a.map_perm)
            },
            Page::Framed(h) => {
                &&& (a.map_type is Framed || a.map_type is FilePriv)
                &&& h.key == key
                &&& k.frames@.contains_key(key)
                &&& (k.frames@[key] is Owned ==> k.ptes@[key].w == a.map_perm.w)
            },
            Page::FileShared(h) => {
                &&& a.map_type is FileShared
                &&& h.key == key
                &&& k.fmap@.contains_key(key)
                &&& k.files@[k.fmap@[key]].inode == a.file.unwrap().id
                &&& k.files@[k.fmap@[key]].offset == a.file_offset + (vpn - a.start_vpn)
                    * PAGE_SIZE
            },
            Page::FilePriv(h) => {
                &&& a.map_type is FilePriv
                &&& h.key == key
                &&& k.fmap@.contains_key(key)
                &&& k.files@[k.fmap@[key]].inode == a.file.unwrap().id
                &&& k.files@[k.fmap@[key]].offset == a.file_offset + (vpn - a.start_vpn)
                    * PAGE_SIZE
            },
        }
    }

    /// The kernel-independent part of an area's well-formedness: a sane
    /// range and a page store keyed exactly by it.
    pub open spec fn shape_ok(self) -> bool {
        &&& self.start_vpn <= self.end_vpn
        &&& self.end_vpn <= VPN_LIMIT
        &&& self.pages.wf()
        &&& self.pages.lengths_ok()
        &&& self.file_ok()
        &&& forall|v: u64| #[trigger] self.pages@.contains_key(v) ==> self.start_vpn <= v
            < self.end_vpn
    }

    /// Every page of the range has a record consistent with its tracker.
    pub open spec fn pages_ok(self, pt: u64, k: Kernel) -> bool {
        forall|v: u64|
            self.start_vpn <= v < self.end_vpn ==> #[trigger] self.pages@.contains_key(v)
                && Self::page_ok(self.pages@[v], pt, v as usize, self, k)
    }

    /// Well-formed relative to the page table `pt` and the kernel state:
    /// the per-page records cover exactly the range and each one is
    /// consistent with its tracker.
    pub open spec fn wf_in(self, pt: u64, k: Kernel) -> bool {
        self.shape_ok() && self.pages_ok(pt, k)
    }
}

/// The entry key a page's handle names, if any.
pub open spec fn page_handle_key(pg: Page) -> Option<u64> {
    match pg {
        Page::Identity => None,
        Page::Framed(h) => Some(h.key),
        Page::FileShared(h) => Some(h.key),
        Page::FilePriv(h) => Some(h.key),
    }
}

/// Whether a page is the file-backed record variant matching policy `t`.
pub open spec fn page_is_file_of(pg: Page, t: MapType) -> bool {
    match pg {
        Page::FileShared(_) => t is FileShared,
        Page::FilePriv(_) => t is FilePriv,
        Page::Identity => false,
        Page::Framed(_) => false,
    }
}

/// The logical content of the file-backed page behind entry `key`: the
/// resident frame's byte when one is loaded, the backing file's byte
/// otherwise.
pub open spec fn spec_file_page_byte(k0: Kernel, fs: crate::vfs::Fs, key: u64, i: int) -> u8 {
    let pos = k0.fmap@[key];
    let m = k0.files@[pos];
    match m.resident {
        Some(pr) => k0.pool@[pr].bytes@[i],
        None => fs.byte_at(m.inode, m.offset + i),
    }
}

/// Whether `pos` is the file position of some page of `[lo, hi)` in an
/// area backed by `inode` from `offset` at `lo`.
pub open spec fn file_pos_in(inode: u32, offset: usize, lo: usize, hi: usize, pos: u64) -> bool {
    exists|v: usize|
        lo <= v < hi && pos == #[trigger] spec_pos_key(
            inode,
            (offset + (v - lo) * PAGE_SIZE) as usize,
        )
}

/// Whether `key` is the entry key of some page of `[lo, hi)` in table
/// `pt`.
pub open spec fn key_in(pt: u64, lo: usize, hi: usize, key: u64) -> bool {
    exists|v: usize| lo <= v < hi && key == #[trigger] spec_pte_key(pt, v)
}

/// A position holding `x` witnesses that some position holds `x`.
proof fn lemma_seq_witness(s: Seq<MapArea>, j: int, x: MapArea)
    requires
        0 <= j < s.len(),
        s[j] == x,
    ensures
        exists|i: int| 0 <= i < s.len() && (#[trigger] s[i]) == x,
{
}

/// `h` is a surviving piece of the area `a`: same policy, permission and
/// backing file, a subrange of `a`'s pages, with the file offset advanced
/// to `h`'s position inside `a`.
pub open spec fn remnant_of(h: MapArea, a: MapArea) -> bool {
    &&& h.map_type == a.map_type
    &&& h.map_perm == a.map_perm
    &&& h.file == a.file
    &&& a.start_vpn <= h.start_vpn
    &&& h.end_vpn <= a.end_vpn
    &&& h.start_vpn <= h.end_vpn
    &&& (a.file is Some ==> h.file_offset == a.file_offset + (h.start_vpn - a.start_vpn)
        * PAGE_SIZE)
}

/// One loadable program segment, as plain values: its virtual byte
/// range, its permission, and its byte offset in the backing image.
pub struct Segment {
    pub start_va: usize,
    pub end_va: usize,
    pub perm: Perm,
    pub file_offset: usize,
}

/// An address space: a page table and its ordered, disjoint map areas.
pub struct MemorySet {
    pub pt: u64,
    pub areas: Vec<MapArea>,
}

impl MemorySet {
    /// Whether some area covers `v`.
    pub open spec fn covers(self, v: usize) -> bool {
        exists|i: int| 0 <= i < self.areas@.len() && (#[trigger] self.areas@[i]).contains_vpn(v)
    }

    /// Whether some non-empty area intersects `[lo, hi)`.
    pub open spec fn spec_overlaps(self, lo: usize, hi: usize) -> bool {
        lo < hi && exists|j: int|
            0 <= j < self.areas@.len() && (#[trigger] self.areas@[j]).start_vpn < hi && lo < self.areas@[j].end_vpn && self.areas@[j].start_vpn < self.areas@[j].end_vpn
    }

    /// Well-formed relative to the kernel: areas are well-formed and
    /// pairwise disjoint, and every tracker record of this page table
    /// belongs to some area.
    pub open spec fn wf_in(self, k: Kernel) -> bool {
        &&& self.pt < k.next_pt
        &&& forall|i: int|
            0 <= i < self.areas@.len() ==> (#[trigger] self.areas@[i]).wf_in(self.pt, k)
        &&& forall|i: int, j: int|
            0 <= i < j < self.areas@.len() ==> (#[trigger] self.areas@[i]).disjoint(
                #[trigger] self.areas@[j],
            )
        &&& forall|v: usize|
            v < VPN_LIMIT && !self.covers(v) ==> !k.frames@.contains_key(
                #[trigger] spec_pte_key(self.pt, v),
            ) && !k.fmap@.contains_key(spec_pte_key(self.pt, v))
    }

    /// Builds an empty address space with a fresh page table.
    pub fn new_bare(k: &mut Kernel) -> (ms: MemorySet)
        requires
            old(k).wf(),
            old(k).next_pt < crate::kernel::PT_MAX,
        ensures
            final(k).wf(),
            ms.wf_in(*final(k)),
            ms.pt == old(k).next_pt,
            ms.areas@.len() == 0,
            final(k).next_pt == old(k).next_pt + 1,
            final(k).ptes@ == old(k).ptes@,
            final(k).pool@ == old(k).pool@,
            final(k).frames@ == old(k).frames@,
            final(k).files@ == old(k).files@,
            final(k).fmap@ == old(k).fmap@,
            final(k).next_ppn == old(k).next_ppn,
            forall|v: usize|
                v < VPN_LIMIT ==> !final(k).frames@.contains_key(
                    #[trigger] spec_pte_key(ms.pt, v),
                ) && !final(k).fmap@.contains_key(spec_pte_key(ms.pt, v))
                    && !final(k).ptes@.contains_key(spec_pte_key(ms.pt, v)),
    {
        let pt = k.new_pt();
        proof {
            assert forall|v: usize| v < VPN_LIMIT implies !k.frames@.contains_key(
                #[trigger] spec_pte_key(pt, v),
            ) && !k.fmap@.contains_key(spec_pte_key(pt, v)) && !k.ptes@.contains_key(
                spec_pte_key(pt, v),
            ) by {
                lemma_fresh_pt_key(*old(k), pt, v);
            }
        }
        MemorySet { pt, areas: Vec::new() }
    }

    /// The page table this address space activates with.
    pub fn token(&self) -> (t: u64)
        ensures
            t == self.pt,
    {
        self.pt
    }

    /// Looks up the leaf entry for `vpn`, read-only.
    pub fn translate(&self, k: &Kernel, vpn: usize) -> (r: Option<Pte>)
        requires
            k.wf(),
            self.wf_in(*k),
            vpn < VPN_LIMIT,
        ensures
            ({
                let key = spec_pte_key(self.pt, vpn);
                match r {
                    Some(e) => k.ptes@.contains_key(key) && e == k.ptes@[key],
                    None => !k.ptes@.contains_key(key),
                }
            }),
    {
        k.get_pte(pte_key(self.pt, vpn))
    }
}

impl MapArea {
    /// Builds a Framed area over `[start_vpn, end_vpn)`: every page gets a
    /// lazy record and an invalidated entry; no frame is allocated yet.
    #[verifier::rlimit(100)]
    #[verifier::spinoff_prover]
    pub fn map_framed(k: &mut Kernel, pt: u64, start_vpn: usize, end_vpn: usize, perm: Perm) -> (a:
        MapArea)
        requires
            old(k).wf(),
            pt < old(k).next_pt,
            start_vpn <= end_vpn,
            end_vpn <= VPN_LIMIT,
            forall|v: usize|
                start_vpn <= v < end_vpn ==> !old(k).frames@.contains_key(
                    #[trigger] spec_pte_key(pt, v),
                ) && !old(k).fmap@.contains_key(spec_pte_key(pt, v)),
        ensures
            final(k).wf(),
            a.wf_in(pt, *final(k)),
            a.start_vpn == start_vpn,
            a.end_vpn == end_vpn,
            a.map_type is Framed,
            a.map_perm == perm,
            a.file is None,
            a.file_offset == 0,
            final(k).pool@ == old(k).pool@,
            final(k).files@ == old(k).files@,
            final(k).files.pairs() == old(k).files.pairs(),
            final(k).fmap@ == old(k).fmap@,
            final(k).fmap.pairs() == old(k).fmap.pairs(),
            final(k).next_pt == old(k).next_pt,
            final(k).next_ppn == old(k).next_ppn,
            forall|v: usize|
                start_vpn <= v < end_vpn ==> final(k).frames@.contains_key(
                    #[trigger] spec_pte_key(pt, v),
                ) && final(k).frames@[spec_pte_key(pt, v)] == FrameRec::Lazy
                    && final(k).ptes@.contains_key(spec_pte_key(pt, v))
                    && final(k).ptes@[spec_pte_key(pt, v)] == Pte::spec_invalid(),
            forall|key: u64|
                !key_in(pt, start_vpn, end_vpn, key) ==> #[trigger] final(k).frames@.contains_key(
                    key,
                ) == old(k).frames@.contains_key(key),
            forall|key: u64|
                !key_in(pt, start_vpn, end_vpn, key) && old(k).frames@.contains_key(key)
                    ==> #[trigger] final(k).frames@[key] == old(k).frames@[key],
            forall|key: u64|
                !key_in(pt, start_vpn, end_vpn, key) ==> #[trigger] final(k).ptes@.contains_key(
                    key,
                ) == old(k).ptes@.contains_key(key),
            forall|key: u64|
                !key_in(pt, start_vpn, end_vpn, key) && old(k).ptes@.contains_key(key)
                    ==> #[trigger] final(k).ptes@[key] == old(k).ptes@[key],
    {
        let mut pages: KvMap<Page> = KvMap::new();
        let mut v: usize = start_vpn;
        while v < end_vpn
            invariant
                k.wf(),
                pt < k.next_pt,
                k.next_pt == old(k).next_pt,
                start_vpn <= v <= end_vpn,
                end_vpn <= VPN_LIMIT,
                pages.wf(),
                pages.lengths_ok(),
                forall|w: u64| #[trigger] pages@.contains_key(w) ==> start_vpn <= w < v,
                forall|w: u64|
                    start_vpn <= w < v ==> #[trigger] pages@.contains_key(w) && (pages@[w]
                        matches Page::Framed(h) && h.key == spec_pte_key(pt, w as usize)),
                forall|w: usize|
                    start_vpn <= w < v ==> k.frames@.contains_key(#[trigger] spec_pte_key(pt, w))
                        && k.frames@[spec_pte_key(pt, w)] == FrameRec::Lazy
                        && k.ptes@.contains_key(spec_pte_key(pt, w)) && k.ptes@[spec_pte_key(
                        pt,
                        w,
                    )] == Pte::spec_invalid(),
                forall|w: usize|
                    v <= w < end_vpn ==> !k.frames@.contains_key(#[trigger] spec_pte_key(pt, w))
                        && !k.fmap@.contains_key(spec_pte_key(pt, w)),
                forall|key: u64|
                    !key_in(pt, start_vpn, end_vpn, key) ==> #[trigger] k.frames@.contains_key(
                        key,
                    ) == old(k).frames@.contains_key(key),
                forall|key: u64|
                    !key_in(pt, start_vpn, end_vpn, key) && old(k).frames@.contains_key(key)
                        ==> #[trigger] k.frames@[key] == old(k).frames@[key],
                forall|key: u64|
                    !key_in(pt, start_vpn, end_vpn, key) ==> #[trigger] k.ptes@.contains_key(key)
                        == old(k).ptes@.contains_key(key),
                forall|key: u64|
                    !key_in(pt, start_vpn, end_vpn, key) && old(k).ptes@.contains_key(key)
                        ==> #[trigger] k.ptes@[key] == old(k).ptes@[key],
                k.pool@ == old(k).pool@,
                k.files@ == old(k).files@,
                k.files.pairs() == old(k).files.pairs(),
                k.fmap@ == old(k).fmap@,
                k.fmap.pairs() == old(k).fmap.pairs(),
                k.next_ppn == old(k).next_ppn,
            decreases end_vpn - v,
        {
            let key = pte_key(pt, v);
            proof {
                lemma_key_bound(pt, v, k.next_pt);
                assert(key_in(pt, start_vpn, end_vpn, key));
            }
            k.create_force(key);
            let h = MFrameHandle::map_lazy(k, key);
            let ghost ppre = pages@;
            pages.insert(v as u64, Page::Framed(h));
            v = v + 1;
            proof {
                assert forall|w: u64|
                    start_vpn <= w < v implies #[trigger] pages@.contains_key(w) && (pages@[w]
                    matches Page::Framed(h2) && h2.key == spec_pte_key(pt, w as usize)) by {
                    if w == (v - 1) as u64 {
                        assert(pages@[w] == Page::Framed(h));
                        assert(h.key == spec_pte_key(pt, (v - 1) as usize));
                    } else {
                        assert(ppre.contains_key(w));
                        assert(pages@[w] == ppre[w]);
                        assert(ppre[w] matches Page::Framed(h2) && h2.key == spec_pte_key(
                            pt,
                            w as usize,
                        ));
                    }
                }
                assert forall|w: usize|
                    v <= w < end_vpn implies !k.frames@.contains_key(
                    #[trigger] spec_pte_key(pt, w),
                ) && !k.fmap@.contains_key(spec_pte_key(pt, w)) by {
                    crate::kernel::lemma_key_ne(pt, w, (v - 1) as usize);
                }
                assert forall|w: usize|
                    start_vpn <= w < v implies k.frames@.contains_key(
                    #[trigger] spec_pte_key(pt, w),
                ) && k.frames@[spec_pte_key(pt, w)] == FrameRec::Lazy && k.ptes@.contains_key(
                    spec_pte_key(pt, w),
                ) && k.ptes@[spec_pte_key(pt, w)] == Pte::spec_invalid() by {
                    if w < v - 1 {
                        crate::kernel::lemma_key_ne(pt, w, (v - 1) as usize);
                    }
                }
            }
        }
        proof {
            assert forall|n: nat|
                #![trigger k.file_rc_headroom(n)]
                n + (end_vpn - start_vpn) <= usize::MAX && old(k).file_rc_headroom(
                    (n + (end_vpn - start_vpn)) as nat,
                ) implies k.file_rc_headroom(n) by {
                assert(k.file_rc_headroom((n + (end_vpn - v)) as nat));
                assert((n + (end_vpn - v)) as nat == n);
            }
        }
        let a = MapArea {
            start_vpn,
            end_vpn,
            pages,
            map_type: MapType::Framed,
            map_perm: perm,
            file: None,
            file_offset: 0,
        };
        proof {
            assert forall|w: u64|
                start_vpn <= w < end_vpn implies #[trigger] a.pages@.contains_key(w)
                && MapArea::page_ok(a.pages@[w], pt, w as usize, a, *k) by {
                let wu = w as usize;
                assert(pages@.contains_key(w));
                assert(pages@[w] matches Page::Framed(h) && h.key == spec_pte_key(pt, wu));
                assert(k.frames@.contains_key(spec_pte_key(pt, wu)));
            }
        }
        a
    }

    /// Builds an Identity area over `[start_vpn, end_vpn)`: every page's
    /// entry maps the page to itself, valid, with no tracker record.
    #[verifier::rlimit(100)]
    #[verifier::spinoff_prover]
    pub fn map_identity(
        k: &mut Kernel,
        pt: u64,
        start_vpn: usize,
        end_vpn: usize,
        perm: Perm,
    ) -> (a: MapArea)
        requires
            old(k).wf(),
            pt < old(k).next_pt,
            start_vpn <= end_vpn,
            end_vpn <= VPN_LIMIT,
            forall|v: usize|
                start_vpn <= v < end_vpn ==> !old(k).frames@.contains_key(
                    #[trigger] spec_pte_key(pt, v),
                ) && !old(k).fmap@.contains_key(spec_pte_key(pt, v)),
        ensures
            final(k).wf(),
            a.wf_in(pt, *final(k)),
            a.start_vpn == start_vpn,
            a.end_vpn == end_vpn,
            a.map_type is Identity,
            a.map_perm == perm,
            a.file is None,
            a.file_offset == 0,
            final(k).pool@ == old(k).pool@,
            final(k).frames@ == old(k).frames@,
            final(k).fmap@ == old(k).fmap@,
            final(k).files@ == old(k).files@,
            final(k).files.pairs() == old(k).files.pairs(),
            final(k).fmap.pairs() == old(k).fmap.pairs(),
            final(k).next_pt == old(k).next_pt,
            final(k).next_ppn == old(k).next_ppn,
            forall|v: usize|
                start_vpn <= v < end_vpn ==> final(k).ptes@.contains_key(
                    #[trigger] spec_pte_key(pt, v),
                ) && final(k).ptes@[spec_pte_key(pt, v)] == Pte::spec_valid(v as u64, perm),
            forall|key: u64|
                !key_in(pt, start_vpn, end_vpn, key) ==> #[trigger] final(k).ptes@.contains_key(
                    key,
                ) == old(k).ptes@.contains_key(key),
            forall|key: u64|
                !key_in(pt, start_vpn, end_vpn, key) && old(k).ptes@.contains_key(key)
                    ==> #[trigger] final(k).ptes@[key] == old(k).ptes@[key],
    {
        let mut pages: KvMap<Page> = KvMap::new();
        let mut v: usize = start_vpn;
        while v < end_vpn
            invariant
                k.wf(),
                pt < k.next_pt,
                k.next_pt == old(k).next_pt,
                start_vpn <= v <= end_vpn,
                end_vpn <= VPN_LIMIT,
                pages.wf(),
                pages.lengths_ok(),
                k.pool@ == old(k).pool@,
                k.frames@ == old(k).frames@,
                k.fmap@ == old(k).fmap@,
                k.files@ == old(k).files@,
                k.files.pairs() == old(k).files.pairs(),
                k.fmap.pairs() == old(k).fmap.pairs(),
                k.next_ppn == old(k).next_ppn,
                forall|w: usize|
                    start_vpn <= w < end_vpn ==> !k.frames@.contains_key(
                        #[trigger] spec_pte_key(pt, w),
                    ) && !k.fmap@.contains_key(spec_pte_key(pt, w)),
                forall|w: u64| #[trigger] pages@.contains_key(w) ==> start_vpn <= w < v,
                forall|w: u64|
                    start_vpn <= w < v ==> #[trigger] pages@.contains_key(w) && pages@[w]
                        is Identity,
                forall|w: usize|
                    start_vpn <= w < v ==> k.ptes@.contains_key(#[trigger] spec_pte_key(pt, w))
                        && k.ptes@[spec_pte_key(pt, w)] == Pte::spec_valid(w as u64, perm),
                forall|key: u64|
                    !key_in(pt, start_vpn, end_vpn, key) ==> #[trigger] k.ptes@.contains_key(key)
                        == old(k).ptes@.contains_key(key),
                forall|key: u64|
                    !key_in(pt, start_vpn, end_vpn, key) && old(k).ptes@.contains_key(key)
                        ==> #[trigger] k.ptes@[key] == old(k).ptes@[key],
            decreases end_vpn - v,
        {
            let key = pte_key(pt, v);
            proof {
                lemma_key_bound(pt, v, k.next_pt);
                assert(key_in(pt, start_vpn, end_vpn, key));
            }
            k.create_force(key);
            k.write_untracked_pte(key, Pte::valid(v as u64, perm));
            let ghost ppre = pages@;
            pages.insert(v as u64, Page::Identity);
            v = v + 1;
            proof {
                assert forall|w: usize|
                    start_vpn <= w < v implies k.ptes@.contains_key(
                    #[trigger] spec_pte_key(pt, w),
                ) && k.ptes@[spec_pte_key(pt, w)] == Pte::spec_valid(w as u64, perm) by {
                    if w < v - 1 {
                        crate::kernel::lemma_key_ne(pt, w, (v - 1) as usize);
                    }
                }
                assert forall|w: u64|
                    start_vpn <= w < v implies #[trigger] pages@.contains_key(w) && pages@[w]
                    is Identity by {
                    if w != (v - 1) as u64 {
                        assert(ppre.contains_key(w));
                        assert(pages@[w] == ppre[w]);
                    }
                }
            }
        }
        let a = MapArea {
            start_vpn,
            end_vpn,
            pages,
            map_type: MapType::Identity,
            map_perm: perm,
            file: None,
            file_offset: 0,
        };
        proof {
            assert forall|w: u64|
                start_vpn <= w < end_vpn implies #[trigger] a.pages@.contains_key(w)
                && MapArea::page_ok(a.pages@[w], pt, w as usize, a, *k) by {
                assert(pages@.contains_key(w));
                assert(pages@[w] is Identity);
                let wu = w as usize;
                assert(!k.frames@.contains_key(spec_pte_key(pt, wu)));
                assert(!k.fmap@.contains_key(spec_pte_key(pt, wu)));
                assert(k.ptes@.contains_key(spec_pte_key(pt, wu)));
                assert(k.ptes@[spec_pte_key(pt, wu)] == Pte::spec_valid(wu as u64, perm));
            }
        }
        a
    }

    /// Builds a file-backed area over `[start_vpn, end_vpn)`: every page
    /// is registered against its position in the backing inode and left
    /// invalid until faulted in.
    #[verifier::rlimit(100)]
    #[verifier::spinoff_prover]
    pub fn map_file(
        k: &mut Kernel,
        pt: u64,
        start_vpn: usize,
        end_vpn: usize,
        perm: Perm,
        map_type: MapType,
        inode: Inode,
        offset: usize,
    ) -> (a: MapArea)
        requires
            old(k).wf(),
            pt < old(k).next_pt,
            start_vpn <= end_vpn,
            end_vpn <= VPN_LIMIT,
            map_type is FileShared || map_type is FilePriv,
            offset % PAGE_SIZE == 0,
            offset / PAGE_SIZE + (end_vpn - start_vpn) < 0x100000000,
            offset + (end_vpn - start_vpn) * PAGE_SIZE <= usize::MAX,
            forall|v: usize|
                start_vpn <= v < end_vpn ==> !old(k).frames@.contains_key(
                    #[trigger] spec_pte_key(pt, v),
                ) && !old(k).fmap@.contains_key(spec_pte_key(pt, v)),
            old(k).file_rc_headroom((end_vpn - start_vpn) as nat),
        ensures
            final(k).wf(),
            a.wf_in(pt, *final(k)),
            a.start_vpn == start_vpn,
            a.end_vpn == end_vpn,
            a.map_type == map_type,
            a.map_perm == perm,
            a.file == Some(inode),
            a.file_offset == offset,
            final(k).pool@ == old(k).pool@,
            final(k).frames@ == old(k).frames@,
            final(k).frames.pairs() == old(k).frames.pairs(),
            final(k).next_pt == old(k).next_pt,
            final(k).next_ppn == old(k).next_ppn,
            forall|v: usize|
                start_vpn <= v < end_vpn ==> final(k).fmap@.contains_key(
                    #[trigger] spec_pte_key(pt, v),
                ) && final(k).fmap@[spec_pte_key(pt, v)] == spec_pos_key(
                    inode.id,
                    (offset + (v - start_vpn) * PAGE_SIZE) as usize,
                ) && !final(k).ptes@[spec_pte_key(pt, v)].v,
            forall|key: u64|
                !key_in(pt, start_vpn, end_vpn, key) ==> #[trigger] final(k).fmap@.contains_key(
                    key,
                ) == old(k).fmap@.contains_key(key),
            forall|key: u64|
                !key_in(pt, start_vpn, end_vpn, key) && old(k).fmap@.contains_key(key)
                    ==> #[trigger] final(k).fmap@[key] == old(k).fmap@[key],
            forall|key: u64|
                !key_in(pt, start_vpn, end_vpn, key) ==> #[trigger] final(k).ptes@.contains_key(
                    key,
                ) == old(k).ptes@.contains_key(key),
            forall|key: u64|
                !key_in(pt, start_vpn, end_vpn, key) && old(k).ptes@.contains_key(key)
                    ==> #[trigger] final(k).ptes@[key] == old(k).ptes@[key],
            forall|pos: u64| #[trigger] old(k).files@.contains_key(pos) ==> final(k).files@.contains_key(pos) && final(k).files@[pos].inode == old(k).files@[pos].inode
                && final(k).files@[pos].offset == old(k).files@[pos].offset && final(k).files@[pos].resident == old(k).files@[pos].resident,
            forall|n: nat|
                n + (end_vpn - start_vpn) <= usize::MAX && old(k).file_rc_headroom(
                    (n + (end_vpn - start_vpn)) as nat,
                ) ==> #[trigger] final(k).file_rc_headroom(n),
            forall|v: usize|
                start_vpn <= v < end_vpn && !old(k).files@.contains_key(
                    #[trigger] spec_pos_key(inode.id, (offset + (v - start_vpn) * PAGE_SIZE) as usize),
                ) ==> final(k).files@[spec_pos_key(
                    inode.id,
                    (offset + (v - start_vpn) * PAGE_SIZE) as usize,
                )] == (crate::kernel::MFile {
                    inode: inode.id,
                    offset: (offset + (v - start_vpn) * PAGE_SIZE) as usize,
                    rc: 1,
                    resident: None,
                }),
    {
        let mut pages: KvMap<Page> = KvMap::new();
        let mut v: usize = start_vpn;
        let ghost ga = MapArea {
            start_vpn,
            end_vpn,
            pages: vstd::pervasive::arbitrary(),
            map_type,
            map_perm: perm,
            file: Some(inode),
            file_offset: offset,
        };
        while v < end_vpn
            invariant
                k.wf(),
                old(k).wf(),
                pt < k.next_pt,
                k.next_pt == old(k).next_pt,
                start_vpn <= v <= end_vpn,
                end_vpn <= VPN_LIMIT,
                map_type is FileShared || map_type is FilePriv,
                offset % PAGE_SIZE == 0,
                offset / PAGE_SIZE + (end_vpn - start_vpn) < 0x100000000,
                offset + (end_vpn - start_vpn) * PAGE_SIZE <= usize::MAX,
                ga.start_vpn == start_vpn && ga.end_vpn == end_vpn && ga.map_type == map_type
                    && ga.file == Some(inode) && ga.file_offset == offset,
                ga.file_ok(),
                pages.wf(),
                pages.lengths_ok(),
                forall|w: u64| #[trigger] pages@.contains_key(w) ==> start_vpn <= w < v,
                forall|w: u64|
                    start_vpn <= w < v ==> #[trigger] pages@.contains_key(w)
                        && page_is_file_of(pages@[w], map_type) && page_handle_key(pages@[w])
                        == Some(spec_pte_key(pt, w as usize)),
                forall|w: usize|
                    start_vpn <= w < v ==> k.fmap@.contains_key(#[trigger] spec_pte_key(pt, w))
                        && k.fmap@[spec_pte_key(pt, w)] == spec_pos_key(
                        inode.id,
                        (offset + (w - start_vpn) * PAGE_SIZE) as usize,
                    ) && k.ptes@.contains_key(spec_pte_key(pt, w)) && !k.ptes@[spec_pte_key(
                        pt,
                        w,
                    )].v,
                forall|w: usize|
                    v <= w < end_vpn ==> !k.frames@.contains_key(#[trigger] spec_pte_key(pt, w))
                        && !k.fmap@.contains_key(spec_pte_key(pt, w)),
                forall|key: u64|
                    !key_in(pt, start_vpn, end_vpn, key) ==> #[trigger] k.fmap@.contains_key(key)
                        == old(k).fmap@.contains_key(key),
                forall|key: u64|
                    !key_in(pt, start_vpn, end_vpn, key) && old(k).fmap@.contains_key(key)
                        ==> #[trigger] k.fmap@[key] == old(k).fmap@[key],
                forall|key: u64|
                    !key_in(pt, start_vpn, end_vpn, key) ==> #[trigger] k.ptes@.contains_key(key)
                        == old(k).ptes@.contains_key(key),
                forall|key: u64|
                    !key_in(pt, start_vpn, end_vpn, key) && old(k).ptes@.contains_key(key)
                        ==> #[trigger] k.ptes@[key] == old(k).ptes@[key],
                forall|pos: u64| #[trigger] old(k).files@.contains_key(pos) ==> k.files@.contains_key(pos) && k.files@[pos].inode == old(k).files@[pos].inode
                    && k.files@[pos].offset == old(k).files@[pos].offset && k.files@[pos].resident
                    == old(k).files@[pos].resident,
                forall|w: usize|
                    start_vpn <= w < v && !old(k).files@.contains_key(
                        #[trigger] spec_pos_key(
                            inode.id,
                            (offset + (w - start_vpn) * PAGE_SIZE) as usize,
                        ),
                    ) ==> k.files@[spec_pos_key(
                        inode.id,
                        (offset + (w - start_vpn) * PAGE_SIZE) as usize,
                    )] == (crate::kernel::MFile {
                        inode: inode.id,
                        offset: (offset + (w - start_vpn) * PAGE_SIZE) as usize,
                        rc: 1,
                        resident: None,
                    }),
                k.file_rc_headroom((end_vpn - v) as nat),
                forall|n: nat|
                    n + (end_vpn - start_vpn) <= usize::MAX && old(k).file_rc_headroom(
                        (n + (end_vpn - start_vpn)) as nat,
                    ) ==> #[trigger] k.file_rc_headroom((n + (end_vpn - v)) as nat),
                forall|pos: u64| #[trigger] k.files@.contains_key(pos) ==> old(k).files@.contains_key(pos) || file_pos_in(inode.id, offset, start_vpn, v, pos),
                k.pool@ == old(k).pool@,
                k.frames@ == old(k).frames@,
                k.frames.pairs() == old(k).frames.pairs(),
                k.next_ppn == old(k).next_ppn,
            decreases end_vpn - v,
        {
            let key = pte_key(pt, v);
            let off_v: usize = offset + (v - start_vpn) * PAGE_SIZE;
            proof {
                lemma_key_bound(pt, v, k.next_pt);
                assert(key_in(pt, start_vpn, end_vpn, key));
                assert(off_v % PAGE_SIZE == 0 && off_v / PAGE_SIZE < 0x100000000)
                    by (nonlinear_arith)
                    requires
                        offset % PAGE_SIZE == 0,
                        offset / PAGE_SIZE + (end_vpn - start_vpn) < 0x100000000,
                        start_vpn <= v < end_vpn,
                        off_v == offset + (v - start_vpn) * PAGE_SIZE,
                        PAGE_SIZE == 4096,
                ;
                assert forall|w: usize|
                    start_vpn <= w < end_vpn && w != v implies #[trigger] spec_pos_key(
                    inode.id,
                    (offset + (w - start_vpn) * PAGE_SIZE) as usize,
                ) != spec_pos_key(
                    inode.id,
                    (offset + (v - start_vpn) * PAGE_SIZE) as usize,
                ) by {
                    lemma_page_pos_inj(ga, w, v);
                    assert(ga.spec_page_pos(w) == spec_pos_key(
                        inode.id,
                        (offset + (w - start_vpn) * PAGE_SIZE) as usize,
                    ));
                    assert(ga.spec_page_pos(v) == spec_pos_key(
                        inode.id,
                        (offset + (v - start_vpn) * PAGE_SIZE) as usize,
                    ));
                }
                assert(ga.spec_page_pos(v) == spec_pos_key(inode.id, off_v));
                if !old(k).files@.contains_key(spec_pos_key(inode.id, off_v)) {
                    assert(!k.files@.contains_key(spec_pos_key(inode.id, off_v))) by {
                        if k.files@.contains_key(spec_pos_key(inode.id, off_v)) {
                            let w = choose|w: usize|
                                start_vpn <= w < v && spec_pos_key(inode.id, off_v)
                                    == #[trigger] spec_pos_key(
                                    inode.id,
                                    (offset + (w - start_vpn) * PAGE_SIZE) as usize,
                                );
                            assert(spec_pos_key(
                                inode.id,
                                (offset + (w - start_vpn) * PAGE_SIZE) as usize,
                            ) != spec_pos_key(
                                inode.id,
                                (offset + (v - start_vpn) * PAGE_SIZE) as usize,
                            ));
                        }
                    }
                }
            }
            let ghost fpre = k.files@;
            let ghost kpre = *k;
            k.create_force(key);
            k.write_untracked_pte(key, Pte::invalid());
            let h = MFileHandle::map(k, key, inode.id, off_v);
            let pg = if matches!(map_type, MapType::FileShared) {
                Page::FileShared(h)
            } else {
                Page::FilePriv(h)
            };
            let ghost ppre = pages@;
            pages.insert(v as u64, pg);
            proof {
                assert forall|w: u64| #[trigger] pages@.contains_key(w) implies start_vpn <= w < v
                    + 1 by {
                    if w != v {
                        assert(ppre.contains_key(w));
                    }
                }
                assert forall|w: u64|
                    start_vpn <= w < v + 1 implies #[trigger] pages@.contains_key(w)
                    && page_is_file_of(pages@[w], map_type) && page_handle_key(pages@[w])
                    == Some(spec_pte_key(pt, w as usize)) by {
                    if w != v {
                        assert(ppre.contains_key(w));
                        assert(pages@[w] == ppre[w]);
                    }
                }
                assert forall|w: usize|
                    start_vpn <= w < v + 1 && !old(k).files@.contains_key(
                        #[trigger] spec_pos_key(
                            inode.id,
                            (offset + (w - start_vpn) * PAGE_SIZE) as usize,
                        ),
                    ) implies k.files@[spec_pos_key(
                    inode.id,
                    (offset + (w - start_vpn) * PAGE_SIZE) as usize,
                )] == (crate::kernel::MFile {
                    inode: inode.id,
                    offset: (offset + (w - start_vpn) * PAGE_SIZE) as usize,
                    rc: 1,
                    resident: None,
                }) by {
                    if w != v {
                        assert(spec_pos_key(
                            inode.id,
                            (offset + (w - start_vpn) * PAGE_SIZE) as usize,
                        ) != spec_pos_key(
                            inode.id,
                            (offset + (v - start_vpn) * PAGE_SIZE) as usize,
                        ));
                    } else {
                        assert(offset + (v - start_vpn) * PAGE_SIZE <= usize::MAX)
                            by (nonlinear_arith)
                            requires
                                start_vpn <= v < end_vpn,
                                offset + (end_vpn - start_vpn) * PAGE_SIZE <= usize::MAX,
                                PAGE_SIZE == 4096,
                        ;
                        assert((offset + (v - start_vpn) * PAGE_SIZE) as usize == off_v);
                    }
                }
                assert forall|pos: u64| #[trigger] k.files@.contains_key(pos) implies old(k).files@.contains_key(pos) || file_pos_in(
                    inode.id,
                    offset,
                    start_vpn,
                    (v + 1) as usize,
                    pos,
                ) by {
                    if pos == spec_pos_key(inode.id, off_v) {
                        assert(start_vpn <= v < v + 1 && pos == spec_pos_key(
                            inode.id,
                            (offset + (v - start_vpn) * PAGE_SIZE) as usize,
                        ));
                    } else {
                        assert(fpre.contains_key(pos));
                        if !old(k).files@.contains_key(pos) {
                            let w = choose|w: usize|
                                start_vpn <= w < v && pos == #[trigger] spec_pos_key(
                                    inode.id,
                                    (offset + (w - start_vpn) * PAGE_SIZE) as usize,
                                );
                            assert(start_vpn <= w < v + 1 && pos == spec_pos_key(
                                inode.id,
                                (offset + (w - start_vpn) * PAGE_SIZE) as usize,
                            ));
                        }
                    }
                }
            }
            v = v + 1;
            proof {
                assert forall|n2: nat|
                    #![trigger k.file_rc_headroom((n2 + (end_vpn - v)) as nat)]
                    n2 + (end_vpn - start_vpn) <= usize::MAX && old(k).file_rc_headroom(
                        (n2 + (end_vpn - start_vpn)) as nat,
                    ) implies k.file_rc_headroom((n2 + (end_vpn - v)) as nat) by {
                    assert(kpre.file_rc_headroom((n2 + (end_vpn - (v - 1))) as nat));
                    let pos = spec_pos_key(inode.id, off_v);
                    assert forall|p2: u64| #[trigger] k.files@.contains_key(p2) implies
                        k.files@[p2].rc + (n2 + (end_vpn - v)) <= usize::MAX by {
                        if p2 == pos {
                            if fpre.contains_key(pos) {
                                assert(fpre[pos].rc + (n2 + (end_vpn - (v - 1)))
                                    <= usize::MAX);
                                assert(k.files@[pos].rc == fpre[pos].rc + 1);
                            } else {
                                assert(k.files@[pos].rc == 1);
                                assert(end_vpn - start_vpn >= 1);
                            }
                        } else {
                            assert(fpre.contains_key(p2));
                            assert(k.files@[p2] == fpre[p2]);
                            assert(fpre[p2].rc + (n2 + (end_vpn - (v - 1))) <= usize::MAX);
                        }
                    }
                }
                assert forall|w: usize|
                    v <= w < end_vpn implies !k.frames@.contains_key(
                    #[trigger] spec_pte_key(pt, w),
                ) && !k.fmap@.contains_key(spec_pte_key(pt, w)) by {
                    crate::kernel::lemma_key_ne(pt, w, (v - 1) as usize);
                }
                assert forall|w: usize|
                    start_vpn <= w < v implies k.fmap@.contains_key(
                    #[trigger] spec_pte_key(pt, w),
                ) && k.fmap@[spec_pte_key(pt, w)] == spec_pos_key(
                    inode.id,
                    (offset + (w - start_vpn) * PAGE_SIZE) as usize,
                ) && k.ptes@.contains_key(spec_pte_key(pt, w)) && !k.ptes@[spec_pte_key(pt, w)].v by {
                    if w < v - 1 {
                        crate::kernel::lemma_key_ne(pt, w, (v - 1) as usize);
                    }
                }
            }
        }
        proof {
            assert forall|n: nat|
                #![trigger k.file_rc_headroom(n)]
                n + (end_vpn - start_vpn) <= usize::MAX && old(k).file_rc_headroom(
                    (n + (end_vpn - start_vpn)) as nat,
                ) implies k.file_rc_headroom(n) by {
                assert(k.file_rc_headroom((n + (end_vpn - v)) as nat));
                assert((n + (end_vpn - v)) as nat == n);
            }
        }
        let a = MapArea {
            start_vpn,
            end_vpn,
            pages,
            map_type,
            map_perm: perm,
            file: Some(inode),
            file_offset: offset,
        };
        proof {
            assert forall|w: u64|
                start_vpn <= w < end_vpn implies #[trigger] a.pages@.contains_key(w)
                && MapArea::page_ok(a.pages@[w], pt, w as usize, a, *k) by {
                let wu = w as usize;
                assert(pages@.contains_key(w));
                assert(k.fmap@.contains_key(spec_pte_key(pt, wu)));
                assert(k.fmap@[spec_pte_key(pt, wu)] == spec_pos_key(
                    inode.id,
                    (offset + (wu - start_vpn) * PAGE_SIZE) as usize,
                ));
                let pos = k.fmap@[spec_pte_key(pt, wu)];
                assert(k.files@.contains_key(pos));
                let m = k.files@[pos];
                assert(pos == spec_pos_key(m.inode, m.offset));
                assert(offset + (wu - start_vpn) * PAGE_SIZE <= usize::MAX && (offset + (wu
                    - start_vpn) * PAGE_SIZE) % (PAGE_SIZE as int) == 0 && (offset + (wu
                    - start_vpn) * PAGE_SIZE) / (PAGE_SIZE as int) < 0x100000000)
                    by (nonlinear_arith)
                    requires
                        offset % PAGE_SIZE == 0,
                        offset / PAGE_SIZE + (end_vpn - start_vpn) < 0x100000000,
                        start_vpn <= wu < end_vpn,
                        offset + (end_vpn - start_vpn) * PAGE_SIZE <= usize::MAX,
                        PAGE_SIZE == 4096,
                ;
                let off_w = (offset + (wu - start_vpn) * PAGE_SIZE) as usize;
                assert(off_w == offset + (wu - start_vpn) * PAGE_SIZE);
                lemma_pos_key_inj(m.inode, m.offset, inode.id, off_w);
                assert(m.inode == inode.id && m.offset == off_w);
            }
        }
        a
    }

    /// Splits this area at `at` into `(self[start..at), self[at..end))`,
    /// partitioning the per-page records; the right half's file offset is
    /// advanced past the left half. A cut outside the range leaves one
    /// side empty at the cut point.
    #[verifier::rlimit(100)]
    #[verifier::spinoff_prover]
    pub fn split(self, at: usize) -> (r: (MapArea, MapArea))
        requires
            self.shape_ok(),
            at <= VPN_LIMIT,
        ensures
            r.0.map_type == self.map_type && r.1.map_type == self.map_type,
            r.0.map_perm == self.map_perm && r.1.map_perm == self.map_perm,
            r.0.file == self.file && r.1.file == self.file,
            r.0.shape_ok() && r.1.shape_ok(),
            at <= self.start_vpn ==> r.0.start_vpn == at && r.0.end_vpn == at && r.1.start_vpn
                == self.start_vpn && r.1.end_vpn == self.end_vpn && r.1.pages@ == self.pages@
                && r.1.file_offset == self.file_offset && r.0.file_offset == self.file_offset,
            at >= self.end_vpn ==> r.1.start_vpn == at && r.1.end_vpn == at && r.0.start_vpn
                == self.start_vpn && r.0.end_vpn == self.end_vpn && r.0.pages@ == self.pages@
                && r.0.file_offset == self.file_offset,
            self.start_vpn < at < self.end_vpn ==> {
                &&& r.0.start_vpn == self.start_vpn
                &&& r.0.end_vpn == at
                &&& r.1.start_vpn == at
                &&& r.1.end_vpn == self.end_vpn
                &&& r.0.file_offset == self.file_offset
                &&& r.1.file_offset == (if self.file is Some {
                    (self.file_offset + (at - self.start_vpn) * PAGE_SIZE) as usize
                } else {
                    0usize
                })
                &&& (forall|w: u64|
                    self.start_vpn <= w < at && self.pages@.contains_key(w)
                        ==> #[trigger] r.0.pages@.contains_key(w))
                &&& (forall|w: u64|
                    self.start_vpn <= w < at && self.pages@.contains_key(w)
                        && r.0.pages@.contains_key(w) ==> #[trigger] r.0.pages@[w]
                        == self.pages@[w])
                &&& (forall|w: u64|
                    at <= w < self.end_vpn && self.pages@.contains_key(w)
                        ==> #[trigger] r.1.pages@.contains_key(w))
                &&& (forall|w: u64|
                    at <= w < self.end_vpn && self.pages@.contains_key(w)
                        && r.1.pages@.contains_key(w) ==> #[trigger] r.1.pages@[w]
                        == self.pages@[w])
                &&& (forall|w: u64|
                    #[trigger] r.0.pages@.contains_key(w) ==> self.pages@.contains_key(w) && w
                        < at)
                &&& (forall|w: u64|
                    #[trigger] r.1.pages@.contains_key(w) ==> self.pages@.contains_key(w) && at
                        <= w)
            },
    {
        if at <= self.start_vpn {
            let empty = MapArea {
                start_vpn: at,
                end_vpn: at,
                pages: KvMap::new(),
                map_type: self.map_type,
                map_perm: self.map_perm,
                file: self.file,
                file_offset: self.file_offset,
            };
            return (empty, self);
        }
        if at >= self.end_vpn {
            let empty = MapArea {
                start_vpn: at,
                end_vpn: at,
                pages: KvMap::new(),
                map_type: self.map_type,
                map_perm: self.map_perm,
                file: self.file,
                file_offset: self.file_offset,
            };
            return (self, empty);
        }
        let mut pages = self.pages;
        let mut right_pages: KvMap<Page> = KvMap::new();
        let mut v: usize = at;
        proof {
            assert forall|w: u64| #[trigger] pages@.contains_key(w) implies self.start_vpn <= w
                < self.end_vpn by {}
        }
        while v < self.end_vpn
            invariant
                self.start_vpn < at,
                at <= v <= self.end_vpn,
                self.end_vpn <= VPN_LIMIT,
                pages.wf(),
                pages.lengths_ok(),
                right_pages.wf(),
                right_pages.lengths_ok(),
                forall|w: u64| #[trigger] pages@.contains_key(w) ==> self.start_vpn <= w < self.end_vpn,
                forall|w: u64|
                    self.start_vpn <= w < at || v <= w < self.end_vpn ==> #[trigger] pages@.contains_key(w) == self.pages@.contains_key(w) && (self.pages@.contains_key(
                        w,
                    ) ==> pages@[w] == self.pages@[w]),
                forall|w: u64| at <= w < v ==> !pages@.contains_key(w),
                forall|w: u64| #[trigger] right_pages@.contains_key(w) ==> at <= w < v,
                forall|w: u64| #[trigger] right_pages@.contains_key(w) ==> self.pages@.contains_key(w),
                forall|w: u64|
                    at <= w < v && self.pages@.contains_key(w) ==> #[trigger] right_pages@.contains_key(w),
                forall|w: u64|
                    at <= w < v && self.pages@.contains_key(w) && right_pages@.contains_key(w)
                        ==> #[trigger] right_pages@[w] == self.pages@[w],
            decreases self.end_vpn - v,
        {
            let ghost ppre = pages@;
            let ghost rpre = right_pages@;
            let moved = pages.remove(v as u64);
            match moved {
                Some(pg) => {
                    right_pages.insert(v as u64, pg);
                },
                None => {},
            }
            v = v + 1;
            proof {
                assert forall|w: u64|
                    self.start_vpn <= w < at || v <= w < self.end_vpn implies
                    #[trigger] pages@.contains_key(w) == self.pages@.contains_key(w) && (
                self.pages@.contains_key(w) ==> pages@[w] == self.pages@[w]) by {
                    assert(w != (v - 1) as u64);
                    assert(ppre.contains_key(w) == self.pages@.contains_key(w));
                }
                assert forall|w: u64|
                    at <= w < v && self.pages@.contains_key(w) implies #[trigger] right_pages@.contains_key(w) by {
                    if w != (v - 1) as u64 {
                        assert(rpre.contains_key(w));
                    } else {
                        assert(ppre.contains_key(w));
                    }
                }
                assert forall|w: u64|
                    at <= w < v && self.pages@.contains_key(w) && right_pages@.contains_key(w)
                        implies #[trigger] right_pages@[w] == self.pages@[w] by {
                    if w != (v - 1) as u64 {
                        assert(rpre.contains_key(w));
                        assert(rpre[w] == self.pages@[w]);
                    } else {
                        assert(ppre.contains_key(w));
                        assert(right_pages@[w] == ppre[w]);
                    }
                }
            }
        }
        proof {
            assert forall|w: u64| #[trigger] pages@.contains_key(w) implies self.pages@.contains_key(w) && w < at by {
                assert(self.start_vpn <= w < self.end_vpn);
                assert(!(at <= w < self.end_vpn));
            }
        }
        let off: usize = if self.file.is_some() {
            self.file_offset + (at - self.start_vpn) * PAGE_SIZE
        } else {
            0
        };
        let left = MapArea {
            start_vpn: self.start_vpn,
            end_vpn: at,
            pages,
            map_type: self.map_type,
            map_perm: self.map_perm,
            file: self.file,
            file_offset: self.file_offset,
        };
        let right = MapArea {
            start_vpn: at,
            end_vpn: self.end_vpn,
            pages: right_pages,
            map_type: self.map_type,
            map_perm: self.map_perm,
            file: self.file,
            file_offset: off,
        };
        proof {
            assert(left.file_ok() && right.file_ok()) by {
                match self.map_type {
                    MapType::Identity | MapType::Framed => {},
                    MapType::FileShared | MapType::FilePriv => {
                        assert(self.file_ok());
                        assert(off % PAGE_SIZE == 0 && off / PAGE_SIZE + (self.end_vpn - at)
                            < 0x100000000 && off + (self.end_vpn - at) * PAGE_SIZE
                            <= usize::MAX) by (nonlinear_arith)
                            requires
                                self.file_offset % PAGE_SIZE == 0,
                                self.file_offset / PAGE_SIZE + (self.end_vpn - self.start_vpn)
                                    < 0x100000000,
                                self.file_offset + (self.end_vpn - self.start_vpn) * PAGE_SIZE
                                    <= usize::MAX,
                                self.start_vpn < at < self.end_vpn,
                                off == self.file_offset + (at - self.start_vpn) * PAGE_SIZE,
                                PAGE_SIZE == 4096,
                        ;
                    },
                }
            }
        }
        (left, right)
    }

    /// Merges `other`, the adjacent area to the right with the same
    /// policy, permission and backing file, into this one; for file-backed
    /// areas the offsets must be contiguous as well.
    pub fn merge(self, other: MapArea) -> (r: MapArea)
        requires
            self.shape_ok(),
            other.shape_ok(),
            self.end_vpn == other.start_vpn || self.start_vpn == self.end_vpn || other.start_vpn
                == other.end_vpn,
            self.map_type == other.map_type,
            self.map_perm == other.map_perm,
            self.file == other.file,
            (self.map_type is FileShared || self.map_type is FilePriv) && self.start_vpn
                < self.end_vpn && other.start_vpn < other.end_vpn ==> other.file_offset
                == self.file_offset + (other.start_vpn - self.start_vpn) * PAGE_SIZE,
        ensures
            self.start_vpn == self.end_vpn ==> r == other,
            self.start_vpn < self.end_vpn && other.start_vpn == other.end_vpn ==> r == self,
            self.start_vpn < self.end_vpn && other.start_vpn < other.end_vpn ==> {
                &&& r.start_vpn == self.start_vpn
                &&& r.end_vpn == other.end_vpn
                &&& r.map_type == self.map_type
                &&& r.map_perm == self.map_perm
                &&& r.file == self.file
                &&& r.file_offset == self.file_offset
                &&& (forall|w: u64|
                    self.start_vpn <= w < self.end_vpn && self.pages@.contains_key(w)
                        ==> #[trigger] r.pages@.contains_key(w))
                &&& (forall|w: u64|
                    self.start_vpn <= w < self.end_vpn && self.pages@.contains_key(w)
                        && r.pages@.contains_key(w) ==> #[trigger] r.pages@[w]
                        == self.pages@[w])
                &&& (forall|w: u64|
                    other.start_vpn <= w < other.end_vpn && other.pages@.contains_key(w)
                        ==> #[trigger] r.pages@.contains_key(w))
                &&& (forall|w: u64|
                    other.start_vpn <= w < other.end_vpn && other.pages@.contains_key(w)
                        && r.pages@.contains_key(w) ==> #[trigger] r.pages@[w]
                        == other.pages@[w])
                &&& (forall|w: u64|
                    #[trigger] r.pages@.contains_key(w) ==> self.pages@.contains_key(w)
                        || other.pages@.contains_key(w))
                &&& r.shape_ok()
            },
    {
        if self.start_vpn == self.end_vpn {
            return other;
        }
        if other.start_vpn == other.end_vpn {
            return self;
        }
        let mut pages = self.pages;
        let mut other_pages = other.pages;
        let mut v: usize = other.start_vpn;
        while v < other.end_vpn
            invariant
                self.start_vpn < self.end_vpn,
                self.end_vpn == other.start_vpn,
                other.start_vpn <= v <= other.end_vpn,
                other.end_vpn <= VPN_LIMIT,
                pages.wf(),
                pages.lengths_ok(),
                other_pages.wf(),
                other_pages.lengths_ok(),
                forall|w: u64| #[trigger] pages@.contains_key(w) ==> (self.start_vpn <= w < self.end_vpn || other.start_vpn <= w < v),
                forall|w: u64| #[trigger] pages@.contains_key(w) ==> self.pages@.contains_key(w)
                    || other.pages@.contains_key(w),
                forall|w: u64|
                    self.start_vpn <= w < self.end_vpn ==> #[trigger] pages@.contains_key(w)
                        == self.pages@.contains_key(w) && (self.pages@.contains_key(w)
                        ==> pages@[w] == self.pages@[w]),
                forall|w: u64|
                    other.start_vpn <= w < v && other.pages@.contains_key(w)
                        ==> #[trigger] pages@.contains_key(w),
                forall|w: u64|
                    other.start_vpn <= w < v && other.pages@.contains_key(w)
                        && pages@.contains_key(w) ==> #[trigger] pages@[w] == other.pages@[w],
                forall|w: u64|
                    v <= w < other.end_vpn ==> #[trigger] other_pages@.contains_key(w)
                        == other.pages@.contains_key(w) && (other.pages@.contains_key(w)
                        ==> other_pages@[w] == other.pages@[w]),
                forall|w: u64| #[trigger] other_pages@.contains_key(w) ==> other.start_vpn <= w
                    < other.end_vpn,
            decreases other.end_vpn - v,
        {
            let ghost ppre = pages@;
            let ghost opre = other_pages@;
            let moved = other_pages.remove(v as u64);
            match moved {
                Some(pg) => {
                    pages.insert(v as u64, pg);
                },
                None => {},
            }
            v = v + 1;
            proof {
                assert forall|w: u64|
                    self.start_vpn <= w < self.end_vpn implies #[trigger] pages@.contains_key(w)
                    == self.pages@.contains_key(w) && (self.pages@.contains_key(w) ==> pages@[w]
                    == self.pages@[w]) by {
                    assert(w != (v - 1) as u64);
                    assert(ppre.contains_key(w) == self.pages@.contains_key(w));
                }
                assert forall|w: u64|
                    other.start_vpn <= w < v && other.pages@.contains_key(w) implies
                    #[trigger] pages@.contains_key(w) by {
                    if w != (v - 1) as u64 {
                        assert(ppre.contains_key(w));
                    } else {
                        assert(opre.contains_key(w));
                    }
                }
                assert forall|w: u64|
                    other.start_vpn <= w < v && other.pages@.contains_key(w)
                        && pages@.contains_key(w) implies #[trigger] pages@[w]
                    == other.pages@[w] by {
                    if w != (v - 1) as u64 {
                        assert(ppre.contains_key(w));
                        assert(ppre[w] == other.pages@[w]);
                    } else {
                        assert(opre.contains_key(w));
                        assert(pages@[w] == opre[w]);
                    }
                }
                assert forall|w: u64|
                    v <= w < other.end_vpn implies #[trigger] other_pages@.contains_key(w)
                    == other.pages@.contains_key(w) && (other.pages@.contains_key(w)
                    ==> other_pages@[w] == other.pages@[w]) by {
                    assert(w != (v - 1) as u64);
                    assert(opre.contains_key(w) == other.pages@.contains_key(w));
                }
            }
        }
        let r = MapArea {
            start_vpn: self.start_vpn,
            end_vpn: other.end_vpn,
            pages,
            map_type: self.map_type,
            map_perm: self.map_perm,
            file: self.file,
            file_offset: self.file_offset,
        };
        proof {
            assert(r.file_ok()) by {
                match self.map_type {
                    MapType::Identity | MapType::Framed => {},
                    MapType::FileShared | MapType::FilePriv => {
                        assert(self.file_offset / PAGE_SIZE + (other.end_vpn - self.start_vpn)
                            < 0x100000000 && self.file_offset + (other.end_vpn - self.start_vpn)
                            * PAGE_SIZE <= usize::MAX) by (nonlinear_arith)
                            requires
                                other.file_offset == self.file_offset + (other.start_vpn
                                    - self.start_vpn) * PAGE_SIZE,
                                other.file_offset % PAGE_SIZE == 0,
                                other.file_offset / PAGE_SIZE + (other.end_vpn
                                    - other.start_vpn) < 0x100000000,
                                other.file_offset + (other.end_vpn - other.start_vpn) * PAGE_SIZE
                                    <= usize::MAX,
                                self.file_offset % PAGE_SIZE == 0,
                                self.start_vpn <= self.end_vpn,
                                self.end_vpn == other.start_vpn,
                                other.start_vpn <= other.end_vpn,
                                PAGE_SIZE == 4096,
                        ;
                    },
                }
            }
        }
        r
    }

    /// What a fault-side operation demands of the filesystem: a file-backed
    /// area's inode is a real file there.
    pub open spec fn fs_ok(self, fs: crate::vfs::Fs) -> bool {
        (self.map_type is FileShared || self.map_type is FilePriv) ==> fs.has_inode(
            self.file.unwrap().id,
        ) && fs.inode(self.file.unwrap().id).kind is File
    }

    /// Loads the page at `vpn`: a lazy RAM page gets a zeroed owned frame;
    /// a file-backed page faults its position in, with the write bit
    /// masked off for private file pages; an identity or already owned
    /// page is left as it is.
    #[verifier::rlimit(100)]
    #[verifier::spinoff_prover]
    pub fn load_one(&self, k: &mut Kernel, fs: &crate::vfs::Fs, pt: u64, vpn: usize)
        requires
            old(k).wf(),
            self.wf_in(pt, *old(k)),
            pt < old(k).next_pt,
            self.contains_vpn(vpn),
            fs.wf(),
            self.fs_ok(*fs),
            !(old(k).frames@.contains_key(spec_pte_key(pt, vpn)) && old(k).frames@[spec_pte_key(
                pt,
                vpn,
            )] is Cow),
            old(k).can_alloc(1),
        ensures
            final(k).wf(),
            self.wf_in(pt, *final(k)),
            final(k).next_pt == old(k).next_pt,
            final(k).ptes@.contains_key(spec_pte_key(pt, vpn)),
            final(k).ptes@[spec_pte_key(pt, vpn)].v,
            forall|key: u64|
                key != spec_pte_key(pt, vpn) ==> #[trigger] final(k).frames@.contains_key(key)
                    == old(k).frames@.contains_key(key) && (old(k).frames@.contains_key(key)
                    ==> final(k).frames@[key] == old(k).frames@[key]),
            forall|key: u64|
                key != spec_pte_key(pt, vpn) ==> #[trigger] final(k).fmap@.contains_key(key)
                    == old(k).fmap@.contains_key(key) && (old(k).fmap@.contains_key(key)
                    ==> final(k).fmap@[key] == old(k).fmap@[key]),
            forall|key: u64|
                key != spec_pte_key(pt, vpn) ==> #[trigger] final(k).ptes@.contains_key(key)
                    == old(k).ptes@.contains_key(key) && (old(k).ptes@.contains_key(key)
                    ==> final(k).ptes@[key] == old(k).ptes@[key]),
            forall|pos: u64| #[trigger] old(k).files@.contains_key(pos) ==> final(k).files@.contains_key(pos) && final(k).files@[pos].inode == old(k).files@[pos].inode
                && final(k).files@[pos].offset == old(k).files@[pos].offset && final(k).files@[pos].rc == old(k).files@[pos].rc,
            final(k).fmap@ == old(k).fmap@,
            forall|p: u64| #[trigger] old(k).pool@.contains_key(p) ==> final(k).pool@.contains_key(p) && final(k).pool@[p].bytes@ == old(k).pool@[p].bytes@,
    {
        let key = pte_key(pt, vpn);
        proof {
            assert(self.pages_ok(pt, *old(k)));
            let vu = vpn as u64;
            assert(self.start_vpn <= vu < self.end_vpn);
            assert(self.pages@.contains_key(vu));
            assert(MapArea::page_ok(self.pages@[vu], pt, vu as usize, *self, *old(k)));
            assert(vu as usize == vpn);
            assert forall|v2: u64|
                self.start_vpn <= v2 < self.end_vpn implies #[trigger] self.pages@.contains_key(
                v2,
            ) && MapArea::page_ok(self.pages@[v2], pt, v2 as usize, *self, *old(k)) by {}
        }
        let pg = match self.pages.get(vpn as u64) {
            Some(pg) => *pg,
            None => unreached(),
        };
        match pg {
            Page::Identity => {},
            Page::Framed(h) => {
                h.load(k, self.map_perm);
            },
            Page::FileShared(h) => {
                h.load(k, fs, self.map_perm);
            },
            Page::FilePriv(h) => {
                let p = Perm { w: false, ..self.map_perm };
                h.load(k, fs, p);
            },
        }
        proof {
            assert(MapArea::page_ok(self.pages@[vpn as u64], pt, vpn, *self, *k));
            lemma_area_page_op(*self, pt, *old(k), *k, vpn);
        }
    }

    /// Promotes a private file page on its first write: the file page is
    /// loaded if need be, its bytes are copied into a fresh owned frame,
    /// the entry is re-pointed writable, and the file record is dropped.
    #[verifier::rlimit(100)]
    #[verifier::spinoff_prover]
    fn promote_file_page(
        &mut self,
        k: &mut Kernel,
        fs: &crate::vfs::Fs,
        pt: u64,
        vpn: usize,
        h: MFileHandle,
    )
        requires
            old(k).wf(),
            old(self).wf_in(pt, *old(k)),
            pt < old(k).next_pt,
            old(self).contains_vpn(vpn),
            fs.wf(),
            old(self).fs_ok(*fs),
            old(self).map_type is FilePriv,
            old(self).map_perm.w,
            old(self).pages@[vpn as u64] == Page::FilePriv(h),
            old(self).pages@.contains_key(vpn as u64),
            h.key == spec_pte_key(pt, vpn),
            old(k).ptes@.contains_key(spec_pte_key(pt, vpn)),
            !(old(k).ptes@[spec_pte_key(pt, vpn)].v && old(k).ptes@[spec_pte_key(pt, vpn)].w),
            old(k).can_alloc(2),
        ensures
            final(k).wf(),
            final(self).wf_in(pt, *final(k)),
            final(self).start_vpn == old(self).start_vpn,
            final(self).end_vpn == old(self).end_vpn,
            final(self).map_type == old(self).map_type,
            final(self).map_perm == old(self).map_perm,
            old(k).next_ppn <= final(k).next_ppn <= old(k).next_ppn + 2,
            final(self).file == old(self).file,
            final(self).file_offset == old(self).file_offset,
            final(k).next_pt == old(k).next_pt,
            forall|key: u64|
                key != spec_pte_key(pt, vpn) ==> #[trigger] final(k).frames@.contains_key(key)
                    == old(k).frames@.contains_key(key) && (old(k).frames@.contains_key(key)
                    ==> final(k).frames@[key] == old(k).frames@[key]),
            forall|key: u64|
                key != spec_pte_key(pt, vpn) ==> #[trigger] final(k).fmap@.contains_key(key)
                    == old(k).fmap@.contains_key(key) && (old(k).fmap@.contains_key(key)
                    ==> final(k).fmap@[key] == old(k).fmap@[key]),
            forall|key: u64|
                key != spec_pte_key(pt, vpn) ==> #[trigger] final(k).ptes@.contains_key(key)
                    == old(k).ptes@.contains_key(key) && (old(k).ptes@.contains_key(key)
                    ==> final(k).ptes@[key] == old(k).ptes@[key]),
            forall|pos: u64| #[trigger] old(k).files@.contains_key(pos) ==> final(k).files@.contains_key(pos) && final(k).files@[pos].inode == old(k).files@[pos].inode
                && final(k).files@[pos].offset == old(k).files@[pos].offset,
            forall|p: u64|
                old(k).pool@.contains_key(p) && final(k).pool@.contains_key(p)
                    ==> #[trigger] final(k).pool@[p].bytes@ == old(k).pool@[p].bytes@,
            ({
                let key = spec_pte_key(pt, vpn);
                let np = final(k).ptes@[key].ppn;
                &&& final(k).frames@.contains_key(key)
                &&& final(k).frames@[key] is Owned
                &&& final(k).ptes@[key] == Pte::spec_valid(np, old(self).map_perm)
                &&& final(k).pool@.contains_key(np)
                &&& final(k).pool@[np].bytes@.len() == PAGE_SIZE
                &&& (forall|i: int|
                    0 <= i < PAGE_SIZE ==> final(k).pool@[np].bytes@[i] == spec_file_page_byte(
                        *old(k),
                        *fs,
                        key,
                        i,
                    ))
            }),
    {
        let key = pte_key(pt, vpn);
        proof {
            assert(old(k).fmap@.contains_key(h.key));
        }

            let valid0 = match k.get_pte(key) {
                Some(e) => e.v,
                None => unreached(),
            };
            if !valid0 {
                let p = Perm { w: false, ..self.map_perm };
                h.load(k, fs, p);
            }
            let ghost k1 = *k;
            let res = match crate::mfile::get_mfile(k, h.key).resident {
                Some(p) => p,
                None => unreached(),
            };
            h.unmap(k);
            let h2 = MFrameHandle::map_strict(k, key, self.map_perm);
            let np = match crate::mframe::get_rec(k, key) {
                crate::kernel::FrameRec::Owned(np) => np,
                _ => unreached(),
            };
            proof {
                assert(k.pool@.contains_key(res));
                assert(np != res);
            }
            k.copy_frame(np, res);
            self.pages.insert(vpn as u64, Page::Framed(h2));
            proof {
                crate::kvmap::lemma_assoc_at(
                    old(self).pages.pairs(),
                    vpn as u64,
                    crate::kvmap::assoc_idx(old(self).pages.pairs(), vpn as u64),
                );
                assert(self.pages@ == old(self).pages@.insert(
                    vpn as u64,
                    Page::Framed(h2),
                ));
                assert forall|v2: u64| #[trigger] self.pages@.contains_key(v2) implies self.start_vpn <= v2 < self.end_vpn by {
                    if v2 != vpn as u64 {
                        assert(old(self).pages@.contains_key(v2));
                    }
                }
                assert(MapArea::page_ok(self.pages@[vpn as u64], pt, vpn, *self, *k));
                assert forall|v2: u64|
                    self.start_vpn <= v2 < self.end_vpn implies #[trigger] self.pages@.contains_key(v2) && MapArea::page_ok(
                    self.pages@[v2],
                    pt,
                    v2 as usize,
                    *self,
                    *k,
                ) by {
                    assert(old(self).pages@.contains_key(v2));
                    if v2 != vpn as u64 {
                        assert(self.pages@[v2] == old(self).pages@[v2]);
                        assert(MapArea::page_ok(
                            old(self).pages@[v2],
                            pt,
                            v2 as usize,
                            *old(self),
                            *old(k),
                        ));
                        crate::kernel::lemma_key_ne(pt, v2 as usize, vpn);
                        assert(k.frames@.contains_key(spec_pte_key(pt, v2 as usize))
                            == old(k).frames@.contains_key(spec_pte_key(pt, v2 as usize)));
                        assert(k.fmap@.contains_key(spec_pte_key(pt, v2 as usize)) == old(k).fmap@.contains_key(spec_pte_key(pt, v2 as usize)));
                        match old(self).pages@[v2] {
                            Page::Identity => {},
                            Page::Framed(_) => {},
                            Page::FileShared(_) => {
                                assert(old(k).files@.contains_key(old(k).fmap@[spec_pte_key(pt, v2 as usize)]));
                            },
                            Page::FilePriv(_) => {
                                assert(old(k).files@.contains_key(old(k).fmap@[spec_pte_key(pt, v2 as usize)]));
                            },
                        }
                    }
                }
                assert(self.pages_ok(pt, *k));
                assert(self.shape_ok());
            }
    }

    /// Resolves a fault on the page at `vpn` of this area, after the
    /// permission checks passed: lazy pages are loaded, shared pages are
    /// taken over copy-on-write, private file pages get their own frame on
    /// first write.
    #[verifier::rlimit(100)]
    #[verifier::spinoff_prover]
    fn resolve_fault(&mut self, k: &mut Kernel, fs: &crate::vfs::Fs, pt: u64, vpn: usize, store: bool)
        requires
            old(k).wf(),
            old(self).wf_in(pt, *old(k)),
            pt < old(k).next_pt,
            old(self).contains_vpn(vpn),
            fs.wf(),
            old(self).fs_ok(*fs),
            old(k).ptes@.contains_key(spec_pte_key(pt, vpn)),
            !store ==> !old(k).ptes@[spec_pte_key(pt, vpn)].v,
            store ==> !(old(k).ptes@[spec_pte_key(pt, vpn)].v && old(k).ptes@[spec_pte_key(
                pt,
                vpn,
            )].w),
            store ==> old(self).map_perm.w,
            !(old(self).map_type is Identity),
            old(k).can_alloc(2),
            old(k).rc_headroom(1),
        ensures
            final(k).wf(),
            final(self).wf_in(pt, *final(k)),
            final(self).start_vpn == old(self).start_vpn,
            final(self).end_vpn == old(self).end_vpn,
            final(self).map_type == old(self).map_type,
            final(self).map_perm == old(self).map_perm,
            final(self).file == old(self).file,
            final(self).file_offset == old(self).file_offset,
            final(k).next_pt == old(k).next_pt,
            old(k).next_ppn <= final(k).next_ppn <= old(k).next_ppn + 2,
            final(k).ptes@.contains_key(spec_pte_key(pt, vpn)),
            final(k).ptes@[spec_pte_key(pt, vpn)].v,
            store ==> final(k).ptes@[spec_pte_key(pt, vpn)].w,
            forall|key: u64|
                key != spec_pte_key(pt, vpn) ==> #[trigger] final(k).frames@.contains_key(key)
                    == old(k).frames@.contains_key(key) && (old(k).frames@.contains_key(key)
                    ==> final(k).frames@[key] == old(k).frames@[key]),
            forall|key: u64|
                key != spec_pte_key(pt, vpn) ==> #[trigger] final(k).fmap@.contains_key(key)
                    == old(k).fmap@.contains_key(key) && (old(k).fmap@.contains_key(key)
                    ==> final(k).fmap@[key] == old(k).fmap@[key]),
            forall|key: u64|
                key != spec_pte_key(pt, vpn) ==> #[trigger] final(k).ptes@.contains_key(key)
                    == old(k).ptes@.contains_key(key) && (old(k).ptes@.contains_key(key)
                    ==> final(k).ptes@[key] == old(k).ptes@[key]),
            forall|pos: u64| #[trigger] old(k).files@.contains_key(pos) ==> final(k).files@.contains_key(pos) && final(k).files@[pos].inode == old(k).files@[pos].inode
                && final(k).files@[pos].offset == old(k).files@[pos].offset,
            // no frame that existed before has its bytes changed
            forall|p: u64|
                old(k).pool@.contains_key(p) && final(k).pool@.contains_key(p)
                    ==> #[trigger] final(k).pool@[p].bytes@ == old(k).pool@[p].bytes@,
            // loading a lazy RAM page: one fresh zeroed frame, mapped with
            // the area's permission
            ({
                let key = spec_pte_key(pt, vpn);
                old(k).frames@.contains_key(key) && old(k).frames@[key] is Lazy ==> {
                    let np = old(k).next_ppn;
                    &&& final(k).ptes@[key] == Pte::spec_valid(np, old(self).map_perm)
                    &&& !old(k).pool@.contains_key(np)
                    &&& final(k).pool@.contains_key(np)
                    &&& final(k).pool@[np].bytes@.len() == PAGE_SIZE
                    &&& (forall|i: int| 0 <= i < PAGE_SIZE ==> final(k).pool@[np].bytes@[i] == 0u8)
                    &&& final(k).next_ppn == old(k).next_ppn + 1
                }
            }),
            // a store on a shared page: the entry now maps a frame holding
            // the shared page's old bytes, writable, other flags kept
            ({
                let key = spec_pte_key(pt, vpn);
                (store && old(k).frames@.contains_key(key)) ==> (old(k).frames@[key] matches
                    FrameRec::Cow(p) ==> {
                    let np = final(k).ptes@[key].ppn;
                    &&& final(k).pool@.contains_key(np)
                    &&& final(k).pool@[np].bytes@ == old(k).pool@[p].bytes@
                    &&& final(k).ptes@[key].r == old(k).ptes@[key].r
                    &&& final(k).ptes@[key].x == old(k).ptes@[key].x
                    &&& final(k).ptes@[key].u == old(k).ptes@[key].u
                    &&& (np != p ==> final(k).pool@.contains_key(p) && final(k).pool@[p].bytes@
                        == old(k).pool@[p].bytes@)
                })
            }),
            // a file-backed page: the mapped frame holds the page's logical
            // content; a private first write owns a fresh copy
            ({
                let key = spec_pte_key(pt, vpn);
                old(k).fmap@.contains_key(key) ==> {
                    let np = final(k).ptes@[key].ppn;
                    &&& final(k).pool@.contains_key(np)
                    &&& final(k).pool@[np].bytes@.len() == PAGE_SIZE
                    &&& (forall|i: int|
                        0 <= i < PAGE_SIZE ==> final(k).pool@[np].bytes@[i]
                            == spec_file_page_byte(*old(k), *fs, key, i))
                    &&& (!store ==> final(k).ptes@[key] == Pte::spec_valid(
                        np,
                        if old(self).map_type is FilePriv {
                            Perm { w: false, ..old(self).map_perm }
                        } else {
                            old(self).map_perm
                        },
                    ))
                    &&& (store && old(self).map_type is FilePriv ==> final(k).frames@.contains_key(key) && final(k).frames@[key] is Owned && final(k).ptes@[key]
                        == Pte::spec_valid(np, old(self).map_perm))
                    &&& (store && old(self).map_type is FileShared ==> final(k).ptes@[key]
                        == Pte::spec_valid(np, old(self).map_perm))
                }
            }),
    {
        let key = pte_key(pt, vpn);
        proof {
            assert(self.pages_ok(pt, *old(k)));
            let vu = vpn as u64;
            assert(self.start_vpn <= vu < self.end_vpn);
            assert(self.pages@.contains_key(vu));
            assert(MapArea::page_ok(self.pages@[vu], pt, vu as usize, *self, *old(k)));
            assert(vu as usize == vpn);
        }
        let pg = match self.pages.get(vpn as u64) {
            Some(pg) => *pg,
            None => unreached(),
        };
        match pg {
            Page::Identity => {
                proof {
                    assert(false);
                }
            },
            Page::Framed(h) => {
                let cow = h.is_cow(k);
                if store && cow {
                    h.cown(k);
                } else {
                    proof {
                        assert(!(k.frames@[h.key] is Cow));
                        if k.frames@[h.key] is Owned {
                            assert(k.ptes@[h.key].v);
                            if store {
                                assert(k.ptes@[h.key].w == self.map_perm.w);
                                assert(false);
                            }
                        }
                    }
                    h.load(k, self.map_perm);
                }
                proof {
                    assert(MapArea::page_ok(self.pages@[vpn as u64], pt, vpn, *self, *k));
                    lemma_area_page_op(*self, pt, *old(k), *k, vpn);
                }
            },
            Page::FileShared(h) => {
                h.load(k, fs, self.map_perm);
                proof {
                    assert(MapArea::page_ok(self.pages@[vpn as u64], pt, vpn, *self, *k));
                    lemma_area_page_op(*self, pt, *old(k), *k, vpn);
                }
            },
            Page::FilePriv(h) => {
                if !store {
                    let p = Perm { w: false, ..self.map_perm };
                    h.load(k, fs, p);
                    proof {
                        assert(MapArea::page_ok(self.pages@[vpn as u64], pt, vpn, *self, *k));
                        lemma_area_page_op(*self, pt, *old(k), *k, vpn);
                    }
                } else {
                    self.promote_file_page(k, fs, pt, vpn, h);
                }
            },
        }
    }

    /// Handles a page fault on this area: rejects it by the area's
    /// permission, then materializes or copies the page as the policy
    /// demands.
    pub fn page_fault(&mut self, k: &mut Kernel, fs: &crate::vfs::Fs, pt: u64, f: PageFault) -> (r:
        isize)
        requires
            old(k).wf(),
            old(self).wf_in(pt, *old(k)),
            pt < old(k).next_pt,
            old(self).contains_vpn(crate::cfg::spec_vpn_of(f.addr as int) as usize),
            fs.wf(),
            old(self).fs_ok(*fs),
            old(k).ptes@.contains_key(spec_pte_key(pt, crate::cfg::spec_vpn_of(f.addr as int) as usize)),
            !(f.fault_type is Store) ==> !old(k).ptes@[spec_pte_key(
                pt,
                crate::cfg::spec_vpn_of(f.addr as int) as usize,
            )].v,
            f.fault_type is Store ==> !(old(k).ptes@[spec_pte_key(
                pt,
                crate::cfg::spec_vpn_of(f.addr as int) as usize,
            )].v && old(k).ptes@[spec_pte_key(
                pt,
                crate::cfg::spec_vpn_of(f.addr as int) as usize,
            )].w),
            !(old(self).map_type is Identity),
            old(k).can_alloc(2),
            old(k).rc_headroom(1),
        ensures
            final(k).wf(),
            final(self).wf_in(pt, *final(k)),
            final(self).start_vpn == old(self).start_vpn,
            final(self).end_vpn == old(self).end_vpn,
            final(self).map_type == old(self).map_type,
            final(self).map_perm == old(self).map_perm,
            final(self).file == old(self).file,
            final(self).file_offset == old(self).file_offset,
            final(k).next_pt == old(k).next_pt,
            old(k).next_ppn <= final(k).next_ppn <= old(k).next_ppn + 2,
            r == -2 <==> !old(self).map_perm.u,
            r == -3 <==> old(self).map_perm.u && f.fault_type is Instruction
                && !old(self).map_perm.x,
            r == -4 <==> old(self).map_perm.u && !(f.fault_type is Instruction
                && !old(self).map_perm.x) && f.fault_type is Store && !old(self).map_perm.w,
            r == -5 <==> old(self).map_perm.u && !(f.fault_type is Instruction
                && !old(self).map_perm.x) && !(f.fault_type is Store && !old(self).map_perm.w)
                && f.fault_type is Load && !old(self).map_perm.r,
            r == 0 || r == -2 || r == -3 || r == -4 || r == -5,
            r < 0 ==> final(k).frames@ == old(k).frames@ && final(k).ptes@ == old(k).ptes@
                && final(k).fmap@ == old(k).fmap@ && final(k).files@ == old(k).files@
                && final(k).pool@ == old(k).pool@ && *final(self) == *old(self)
                && final(k).next_ppn == old(k).next_ppn,
            r == 0 ==> final(k).ptes@[spec_pte_key(
                pt,
                crate::cfg::spec_vpn_of(f.addr as int) as usize,
            )].v && (f.fault_type is Store ==> final(k).ptes@[spec_pte_key(
                pt,
                crate::cfg::spec_vpn_of(f.addr as int) as usize,
            )].w),
            forall|key: u64|
                key != spec_pte_key(pt, crate::cfg::spec_vpn_of(f.addr as int) as usize)
                    ==> #[trigger] final(k).frames@.contains_key(key) == old(k).frames@.contains_key(key) && (old(k).frames@.contains_key(key) ==> final(k).frames@[key]
                    == old(k).frames@[key]),
            forall|key: u64|
                key != spec_pte_key(pt, crate::cfg::spec_vpn_of(f.addr as int) as usize)
                    ==> #[trigger] final(k).fmap@.contains_key(key) == old(k).fmap@.contains_key(
                    key,
                ) && (old(k).fmap@.contains_key(key) ==> final(k).fmap@[key] == old(k).fmap@[key]),
            forall|key: u64|
                key != spec_pte_key(pt, crate::cfg::spec_vpn_of(f.addr as int) as usize)
                    ==> #[trigger] final(k).ptes@.contains_key(key) == old(k).ptes@.contains_key(
                    key,
                ) && (old(k).ptes@.contains_key(key) ==> final(k).ptes@[key] == old(k).ptes@[key]),
            forall|pos: u64| #[trigger] old(k).files@.contains_key(pos) ==> final(k).files@.contains_key(pos) && final(k).files@[pos].inode == old(k).files@[pos].inode
                && final(k).files@[pos].offset == old(k).files@[pos].offset,
            forall|p: u64|
                old(k).pool@.contains_key(p) && final(k).pool@.contains_key(p)
                    ==> #[trigger] final(k).pool@[p].bytes@ == old(k).pool@[p].bytes@,
            ({
                let key = spec_pte_key(pt, crate::cfg::spec_vpn_of(f.addr as int) as usize);
                r == 0 && old(k).frames@.contains_key(key) && old(k).frames@[key] is Lazy ==> {
                    let np = old(k).next_ppn;
                    &&& final(k).ptes@[key] == Pte::spec_valid(np, old(self).map_perm)
                    &&& !old(k).pool@.contains_key(np)
                    &&& final(k).pool@.contains_key(np)
                    &&& final(k).pool@[np].bytes@.len() == PAGE_SIZE
                    &&& (forall|i: int| 0 <= i < PAGE_SIZE ==> final(k).pool@[np].bytes@[i] == 0u8)
                    &&& final(k).next_ppn == old(k).next_ppn + 1
                }
            }),
            ({
                let key = spec_pte_key(pt, crate::cfg::spec_vpn_of(f.addr as int) as usize);
                (r == 0 && f.fault_type is Store && old(k).frames@.contains_key(key)) ==> (old(k).frames@[key] matches FrameRec::Cow(p) ==> {
                    let np = final(k).ptes@[key].ppn;
                    &&& final(k).pool@.contains_key(np)
                    &&& final(k).pool@[np].bytes@ == old(k).pool@[p].bytes@
                    &&& final(k).ptes@[key].r == old(k).ptes@[key].r
                    &&& final(k).ptes@[key].x == old(k).ptes@[key].x
                    &&& final(k).ptes@[key].u == old(k).ptes@[key].u
                    &&& (np != p ==> final(k).pool@.contains_key(p) && final(k).pool@[p].bytes@
                        == old(k).pool@[p].bytes@)
                })
            }),
            ({
                let key = spec_pte_key(pt, crate::cfg::spec_vpn_of(f.addr as int) as usize);
                r == 0 && old(k).fmap@.contains_key(key) ==> {
                    let np = final(k).ptes@[key].ppn;
                    &&& final(k).pool@.contains_key(np)
                    &&& final(k).pool@[np].bytes@.len() == PAGE_SIZE
                    &&& (forall|i: int|
                        0 <= i < PAGE_SIZE ==> final(k).pool@[np].bytes@[i]
                            == spec_file_page_byte(*old(k), *fs, key, i))
                    &&& (!(f.fault_type is Store) ==> final(k).ptes@[key] == Pte::spec_valid(
                        np,
                        if old(self).map_type is FilePriv {
                            Perm { w: false, ..old(self).map_perm }
                        } else {
                            old(self).map_perm
                        },
                    ))
                    &&& (f.fault_type is Store && old(self).map_type is FilePriv ==> final(k).frames@.contains_key(key) && final(k).frames@[key] is Owned
                        && final(k).ptes@[key] == Pte::spec_valid(np, old(self).map_perm))
                    &&& (f.fault_type is Store && old(self).map_type is FileShared ==> final(k).ptes@[key] == Pte::spec_valid(np, old(self).map_perm))
                }
            }),
    {
        let vpn = crate::cfg::vpn_floor(f.addr);
        if !self.map_perm.u {
            return -2;
        }
        if matches!(f.fault_type, PageFaultType::Instruction) && !self.map_perm.x {
            return -3;
        }
        if matches!(f.fault_type, PageFaultType::Store) && !self.map_perm.w {
            return -4;
        }
        if matches!(f.fault_type, PageFaultType::Load) && !self.map_perm.r {
            return -5;
        }
        let store = matches!(f.fault_type, PageFaultType::Store);
        self.resolve_fault(k, fs, pt, vpn, store);
        0
    }

    /// Releases every page of this area: records are dropped, entries
    /// invalidated, and frames and shared file records give up one
    /// reference each.
    #[verifier::rlimit(100)]
    #[verifier::spinoff_prover]
    pub fn release(self, k: &mut Kernel, pt: u64)
        requires
            old(k).wf(),
            self.wf_in(pt, *old(k)),
            pt < old(k).next_pt,
        ensures
            final(k).wf(),
            final(k).next_pt == old(k).next_pt,
            final(k).next_ppn == old(k).next_ppn,
            forall|v: usize|
                self.start_vpn <= v < self.end_vpn ==> !final(k).frames@.contains_key(
                    #[trigger] spec_pte_key(pt, v),
                ) && !final(k).fmap@.contains_key(spec_pte_key(pt, v)),
            forall|v: usize|
                self.start_vpn <= v < self.end_vpn && final(k).ptes@.contains_key(
                    #[trigger] spec_pte_key(pt, v),
                ) ==> !final(k).ptes@[spec_pte_key(pt, v)].v,
            forall|p: u64|
                #[trigger] final(k).pool@.contains_key(p) ==> old(k).pool@.contains_key(p)
                    && final(k).pool@[p].bytes@ == old(k).pool@[p].bytes@,
            forall|key: u64|
                !key_in(pt, self.start_vpn, self.end_vpn, key) ==> #[trigger] final(k).frames@.contains_key(key) == old(k).frames@.contains_key(key),
            forall|key: u64|
                !key_in(pt, self.start_vpn, self.end_vpn, key) && old(k).frames@.contains_key(key)
                    ==> #[trigger] final(k).frames@[key] == old(k).frames@[key],
            forall|key: u64|
                !key_in(pt, self.start_vpn, self.end_vpn, key) ==> #[trigger] final(k).fmap@.contains_key(key) == old(k).fmap@.contains_key(key),
            forall|key: u64|
                !key_in(pt, self.start_vpn, self.end_vpn, key) && old(k).fmap@.contains_key(key)
                    ==> #[trigger] final(k).fmap@[key] == old(k).fmap@[key],
            forall|key: u64|
                !key_in(pt, self.start_vpn, self.end_vpn, key) ==> #[trigger] final(k).ptes@.contains_key(key) == old(k).ptes@.contains_key(key),
            forall|key: u64|
                !key_in(pt, self.start_vpn, self.end_vpn, key) && old(k).ptes@.contains_key(key)
                    ==> #[trigger] final(k).ptes@[key] == old(k).ptes@[key],
            (self.map_type is Framed && (forall|v: usize|
                self.start_vpn <= v < self.end_vpn ==> old(k).frames@[#[trigger] spec_pte_key(
                    pt,
                    v,
                )] == FrameRec::Lazy)) ==> final(k).pool@ == old(k).pool@ && final(k).ptes@ == old(k).ptes@ && final(k).files@ == old(k).files@ && final(k).files.pairs() == old(k).files.pairs(),
            forall|pos: u64| #[trigger] old(k).files@.contains_key(pos) ==> final(k).files@.contains_key(pos) && final(k).files@[pos].inode == old(k).files@[pos].inode
                && final(k).files@[pos].offset == old(k).files@[pos].offset,
            self.map_type is FileShared ==> final(k).pool@ == old(k).pool@,
            self.map_type is FileShared ==> (forall|v: usize|
                self.start_vpn <= v < self.end_vpn ==> final(k).files@.contains_key(
                    #[trigger] self.spec_page_pos(v),
                ) && final(k).files@[self.spec_page_pos(v)].rc == old(k).files@[self.spec_page_pos(
                    v,
                )].rc - 1 && final(k).files@[self.spec_page_pos(v)].resident == old(k).files@[self.spec_page_pos(v)].resident && final(k).files@[self.spec_page_pos(v)].inode == old(k).files@[self.spec_page_pos(v)].inode && final(k).files@[self.spec_page_pos(v)].offset == old(k).files@[self.spec_page_pos(v)].offset),
    {
        let mut v: usize = self.start_vpn;
        let mut pages = self.pages;
        proof {
            assert forall|w: u64|
                self.start_vpn <= w < self.end_vpn implies #[trigger] pages@.contains_key(w)
                && pages@[w] == self.pages@[w] by {
                assert(self.pages@.contains_key(w));
            }
            if self.map_type is FileShared {
                assert forall|w: usize| self.start_vpn <= w < self.end_vpn implies k.files@.contains_key(#[trigger] self.spec_page_pos(w)) by {
                    lemma_area_page_pos(self, pt, *k, w);
                }
            }
        }
        while v < self.end_vpn
            invariant
                k.wf(),
                old(k).wf(),
                self.wf_in(pt, *old(k)),
                pt < k.next_pt,
                k.next_pt == old(k).next_pt,
                self.start_vpn <= v <= self.end_vpn,
                self.end_vpn <= VPN_LIMIT,
                self.file_ok(),
                pages.wf(),
                pages.lengths_ok(),
                forall|w: u64|
                    v <= w < self.end_vpn ==> #[trigger] pages@.contains_key(w)
                        && pages@[w] == self.pages@[w],
                forall|w: usize|
                    v <= w < self.end_vpn ==> #[trigger] k.frames@.contains_key(
                        spec_pte_key(pt, w),
                    ) == old(k).frames@.contains_key(spec_pte_key(pt, w)),
                forall|w: usize|
                    v <= w < self.end_vpn && old(k).frames@.contains_key(spec_pte_key(pt, w))
                        ==> #[trigger] k.frames@[spec_pte_key(pt, w)] == old(k).frames@[spec_pte_key(pt, w)],
                forall|w: usize|
                    v <= w < self.end_vpn ==> #[trigger] k.fmap@.contains_key(spec_pte_key(pt, w))
                        == old(k).fmap@.contains_key(spec_pte_key(pt, w)),
                forall|w: usize|
                    v <= w < self.end_vpn && old(k).fmap@.contains_key(spec_pte_key(pt, w))
                        ==> #[trigger] k.fmap@[spec_pte_key(pt, w)] == old(k).fmap@[spec_pte_key(pt, w)],
                forall|w: usize|
                    v <= w < self.end_vpn ==> #[trigger] k.ptes@.contains_key(spec_pte_key(pt, w))
                        == old(k).ptes@.contains_key(spec_pte_key(pt, w)),
                forall|w: usize|
                    v <= w < self.end_vpn && old(k).ptes@.contains_key(spec_pte_key(pt, w))
                        ==> #[trigger] k.ptes@[spec_pte_key(pt, w)] == old(k).ptes@[spec_pte_key(pt, w)],
                forall|w: usize|
                    self.start_vpn <= w < v ==> !k.frames@.contains_key(
                        #[trigger] spec_pte_key(pt, w),
                    ) && !k.fmap@.contains_key(spec_pte_key(pt, w)),
                forall|w: usize|
                    self.start_vpn <= w < v && k.ptes@.contains_key(
                        #[trigger] spec_pte_key(pt, w),
                    ) ==> !k.ptes@[spec_pte_key(pt, w)].v,
                forall|p: u64|
                    #[trigger] k.pool@.contains_key(p) ==> old(k).pool@.contains_key(p)
                        && k.pool@[p].bytes@ == old(k).pool@[p].bytes@,
                forall|key: u64|
                    !key_in(pt, self.start_vpn, self.end_vpn, key) ==> #[trigger] k.frames@.contains_key(key) == old(k).frames@.contains_key(key),
                forall|key: u64|
                    !key_in(pt, self.start_vpn, self.end_vpn, key) && old(k).frames@.contains_key(
                        key,
                    ) ==> #[trigger] k.frames@[key] == old(k).frames@[key],
                forall|key: u64|
                    !key_in(pt, self.start_vpn, self.end_vpn, key) ==> #[trigger] k.fmap@.contains_key(key) == old(k).fmap@.contains_key(key),
                forall|key: u64|
                    !key_in(pt, self.start_vpn, self.end_vpn, key) && old(k).fmap@.contains_key(
                        key,
                    ) ==> #[trigger] k.fmap@[key] == old(k).fmap@[key],
                forall|key: u64|
                    !key_in(pt, self.start_vpn, self.end_vpn, key) ==> #[trigger] k.ptes@.contains_key(key) == old(k).ptes@.contains_key(key),
                forall|key: u64|
                    !key_in(pt, self.start_vpn, self.end_vpn, key) && old(k).ptes@.contains_key(
                        key,
                    ) ==> #[trigger] k.ptes@[key] == old(k).ptes@[key],
                (self.map_type is Framed && (forall|w: usize|
                    self.start_vpn <= w < self.end_vpn ==> old(k).frames@[
                        #[trigger] spec_pte_key(pt, w)] == FrameRec::Lazy)) ==> k.pool@ == old(k).pool@ && k.ptes@ == old(k).ptes@ && k.files@ == old(k).files@ && k.files.pairs() == old(k).files.pairs(),
                forall|pos: u64| #[trigger] old(k).files@.contains_key(pos) ==> k.files@.contains_key(pos) && k.files@[pos].inode == old(k).files@[pos].inode
                    && k.files@[pos].offset == old(k).files@[pos].offset,
                self.map_type is FileShared ==> k.pool@ == old(k).pool@,
                self.map_type is FileShared ==> (forall|w: usize|
                    self.start_vpn <= w < self.end_vpn ==> #[trigger] k.files@.contains_key(
                        self.spec_page_pos(w),
                    )),
                self.map_type is FileShared ==> (forall|w: usize|
                    self.start_vpn <= w < v ==> #[trigger] k.files@[self.spec_page_pos(w)].rc
                        == old(k).files@[self.spec_page_pos(w)].rc - 1),
                self.map_type is FileShared ==> (forall|w: usize|
                    v <= w < self.end_vpn ==> #[trigger] k.files@[self.spec_page_pos(w)].rc
                        == old(k).files@[self.spec_page_pos(w)].rc),
                self.map_type is FileShared ==> (forall|w: usize|
                    self.start_vpn <= w < self.end_vpn ==> #[trigger] k.files@[self.spec_page_pos(
                        w,
                    )].resident == old(k).files@[self.spec_page_pos(w)].resident
                        && k.files@[self.spec_page_pos(w)].inode == old(k).files@[self.spec_page_pos(w)].inode && k.files@[self.spec_page_pos(w)].offset == old(k).files@[self.spec_page_pos(w)].offset),
                k.next_ppn == old(k).next_ppn,
            decreases self.end_vpn - v,
        {
            proof {
                assert(self.start_vpn <= v < self.end_vpn && spec_pte_key(pt, v) == spec_pte_key(
                    pt,
                    v,
                ));
                assert(key_in(pt, self.start_vpn, self.end_vpn, spec_pte_key(pt, v)));
                let keyv = spec_pte_key(pt, v);
                assert(pages@.contains_key(v as u64));
                assert(k.frames@.contains_key(keyv) == old(k).frames@.contains_key(keyv));
                assert(k.fmap@.contains_key(keyv) == old(k).fmap@.contains_key(keyv));
                assert(k.ptes@.contains_key(keyv) == old(k).ptes@.contains_key(keyv));
                assert(old(k).frames@.contains_key(keyv) ==> k.frames@[keyv]
                    == old(k).frames@[keyv]);
                assert(old(k).fmap@.contains_key(keyv) ==> k.fmap@[keyv] == old(k).fmap@[keyv]);
                assert(old(k).ptes@.contains_key(keyv) ==> k.ptes@[keyv] == old(k).ptes@[keyv]);
                if self.map_type is FileShared {
                    lemma_area_page_pos(self, pt, *old(k), v);
                    assert(k.files@[self.spec_page_pos(v)].rc == old(k).files@[self.spec_page_pos(
                        v,
                    )].rc);
                    assert(k.files@[self.spec_page_pos(v)].resident == old(k).files@[self.spec_page_pos(v)].resident);
                    assert(k.files@[self.spec_page_pos(v)].inode == old(k).files@[self.spec_page_pos(v)].inode);
                    assert(k.files@[self.spec_page_pos(v)].offset == old(k).files@[self.spec_page_pos(v)].offset);
                    assert forall|w: usize|
                        self.start_vpn <= w < self.end_vpn && w != v implies self.spec_page_pos(w)
                        != #[trigger] self.spec_page_pos(v) by {
                        lemma_page_pos_inj(self, w, v);
                    }
                }
            }
            let ghost ppre = pages@;
            proof {
                assert forall|w: u64|
                    v + 1 <= w < self.end_vpn implies #[trigger] ppre.contains_key(w)
                    && ppre[w] == self.pages@[w] by {
                    assert(pages@.contains_key(w));
                }
            }
            let pg = match pages.remove(v as u64) {
                Some(pg) => pg,
                None => unreached(),
            };
            proof {
                assert(self.pages@.contains_key(v as u64));
                assert(MapArea::page_ok(pg, pt, v, self, *old(k)));
                assert(pages@ == ppre.remove(v as u64));
                assert forall|w: u64|
                    v + 1 <= w < self.end_vpn implies #[trigger] pages@.contains_key(w)
                    && pages@[w] == self.pages@[w] by {
                    assert(w != (v as u64));
                    assert(ppre.contains_key(w));
                }
            }
            match pg {
                Page::Identity => {
                    let kk = pte_key(pt, v);
                    k.write_untracked_pte(kk, Pte::invalid());
                },
                Page::Framed(h) => {
                    h.unmap(k);
                },
                Page::FileShared(h) => {
                    proof {
                        assert(h.key == spec_pte_key(pt, v));
                        assert(k.fmap@.contains_key(h.key));
                        assert(k.fmap@[h.key] == self.spec_page_pos(v));
                        assert(k.files@.contains_key(self.spec_page_pos(v)));
                    }
                    let ghost fpre = k.files@;
                    h.unmap(k);
                    proof {
                        assert forall|w: usize|
                            self.start_vpn <= w < self.end_vpn && w != v implies #[trigger] k.files@[self.spec_page_pos(w)] == fpre[self.spec_page_pos(w)] by {
                            assert(self.spec_page_pos(w) != self.spec_page_pos(v));
                        }
                        assert(k.files@[self.spec_page_pos(v)].rc == old(k).files@[self.spec_page_pos(v)].rc - 1);
                        assert(k.files@[self.spec_page_pos(v)].resident == old(k).files@[self.spec_page_pos(v)].resident);
                    }
                },
                Page::FilePriv(h) => {
                    h.unmap(k);
                },
            }
            v = v + 1;
        }
    }
}

/// An area stays well-formed when the kernel changes only outside its
/// keys and keeps every file record's identity.
#[verifier::rlimit(100)]
#[verifier::spinoff_prover]
pub proof fn lemma_area_preserved(a: MapArea, pt: u64, k0: Kernel, k1: Kernel, lo: usize, hi: usize)
    requires
        a.wf_in(pt, k0),
        pt < k0.next_pt,
        k0.wf(),
        hi <= VPN_LIMIT,
        a.end_vpn <= lo || hi <= a.start_vpn || a.start_vpn == a.end_vpn || hi <= lo,
        forall|key: u64|
            !key_in(pt, lo, hi, key) ==> #[trigger] k1.frames@.contains_key(key)
                == k0.frames@.contains_key(key),
        forall|key: u64|
            !key_in(pt, lo, hi, key) && k0.frames@.contains_key(key)
                ==> #[trigger] k1.frames@[key] == k0.frames@[key],
        forall|key: u64|
            !key_in(pt, lo, hi, key) ==> #[trigger] k1.fmap@.contains_key(key)
                == k0.fmap@.contains_key(key),
        forall|key: u64|
            !key_in(pt, lo, hi, key) && k0.fmap@.contains_key(key) ==> #[trigger] k1.fmap@[key]
                == k0.fmap@[key],
        forall|key: u64|
            !key_in(pt, lo, hi, key) ==> #[trigger] k1.ptes@.contains_key(key)
                == k0.ptes@.contains_key(key),
        forall|key: u64|
            !key_in(pt, lo, hi, key) && k0.ptes@.contains_key(key) ==> #[trigger] k1.ptes@[key]
                == k0.ptes@[key],
        forall|pos: u64| #[trigger] k0.files@.contains_key(pos) ==> k1.files@.contains_key(pos)
            && k1.files@[pos].inode == k0.files@[pos].inode && k1.files@[pos].offset
            == k0.files@[pos].offset,
        k0.dom_ok(),
    ensures
        a.pages_ok(pt, k1),
{
    assert forall|v: u64|
        a.start_vpn <= v < a.end_vpn implies #[trigger] a.pages@.contains_key(v)
        && MapArea::page_ok(a.pages@[v], pt, v as usize, a, k1) by {
        let key = spec_pte_key(pt, v as usize);
        assert(a.start_vpn <= v < a.end_vpn);
        assert(a.pages@.contains_key(v));
        assert(MapArea::page_ok(a.pages@[v], pt, v as usize, a, k0));
        assert(!key_in(pt, lo, hi, key)) by {
            if key_in(pt, lo, hi, key) {
                let w = choose|w: usize| lo <= w < hi && key == spec_pte_key(pt, w);
                assert(spec_pte_key(pt, w) == spec_pte_key(pt, v as usize));
                crate::kernel::lemma_pte_key_inj(pt, w, pt, v as usize);
                assert(w == v as usize);
            }
        }
        assert(k1.frames@.contains_key(key) == k0.frames@.contains_key(key));
        assert(k1.fmap@.contains_key(key) == k0.fmap@.contains_key(key));
        assert(k1.ptes@.contains_key(key) == k0.ptes@.contains_key(key));
        match a.pages@[v] {
            Page::Identity => {},
            Page::Framed(_) => {},
            Page::FileShared(_) => {
                assert(k0.files@.contains_key(k0.fmap@[key]));
            },
            Page::FilePriv(_) => {
                assert(k0.files@.contains_key(k0.fmap@[key]));
            },
        }
    }
    assert(a.pages_ok(pt, k1));
}

/// An area's pages stay consistent when the kernel changes only at one of
/// its own entries and that entry's new record state is consistent.
#[verifier::rlimit(100)]
#[verifier::spinoff_prover]
pub proof fn lemma_area_page_op(a: MapArea, pt: u64, k0: Kernel, k1: Kernel, vpn: usize)
    requires
        a.wf_in(pt, k0),
        pt < k0.next_pt,
        k0.wf(),
        a.contains_vpn(vpn),
        forall|key: u64|
            key != spec_pte_key(pt, vpn) ==> #[trigger] k1.frames@.contains_key(key)
                == k0.frames@.contains_key(key) && (k0.frames@.contains_key(key)
                ==> k1.frames@[key] == k0.frames@[key]),
        forall|key: u64|
            key != spec_pte_key(pt, vpn) ==> #[trigger] k1.fmap@.contains_key(key)
                == k0.fmap@.contains_key(key) && (k0.fmap@.contains_key(key) ==> k1.fmap@[key]
                == k0.fmap@[key]),
        forall|key: u64|
            key != spec_pte_key(pt, vpn) ==> #[trigger] k1.ptes@.contains_key(key)
                == k0.ptes@.contains_key(key) && (k0.ptes@.contains_key(key) ==> k1.ptes@[key]
                == k0.ptes@[key]),
        forall|pos: u64| #[trigger] k0.files@.contains_key(pos) ==> k1.files@.contains_key(pos)
            && k1.files@[pos].inode == k0.files@[pos].inode && k1.files@[pos].offset
            == k0.files@[pos].offset,
        MapArea::page_ok(a.pages@[vpn as u64], pt, vpn, a, k1),
    ensures
        a.pages_ok(pt, k1),
{
    assert forall|v2: u64|
        a.start_vpn <= v2 < a.end_vpn implies #[trigger] a.pages@.contains_key(v2)
        && MapArea::page_ok(a.pages@[v2], pt, v2 as usize, a, k1) by {
        let key = spec_pte_key(pt, v2 as usize);
        assert(a.start_vpn <= v2 < a.end_vpn);
        assert(a.pages@.contains_key(v2));
        assert(MapArea::page_ok(a.pages@[v2], pt, v2 as usize, a, k0));
        if v2 as usize != vpn {
            crate::kernel::lemma_key_ne(pt, v2 as usize, vpn);
            assert(k1.frames@.contains_key(key) == k0.frames@.contains_key(key));
            assert(k1.fmap@.contains_key(key) == k0.fmap@.contains_key(key));
            assert(k1.ptes@.contains_key(key) == k0.ptes@.contains_key(key));
            match a.pages@[v2] {
                Page::Identity => {},
                Page::Framed(_) => {},
                Page::FileShared(_) => {
                    assert(k0.files@.contains_key(k0.fmap@[spec_pte_key(pt, v2 as usize)]));
                },
                Page::FilePriv(_) => {
                    assert(k0.files@.contains_key(k0.fmap@[spec_pte_key(pt, v2 as usize)]));
                },
            }
        } else {
            assert(v2 == vpn as u64);
        }
    }
}

/// Whether some area of the sequence covers `v`.
pub open spec fn covered_by(s: Seq<MapArea>, v: usize) -> bool {
    exists|i: int| 0 <= i < s.len() && (#[trigger] s[i]).contains_vpn(v)
}

/// Appending one more surviving area keeps the bookkeeping of an unmap
/// pass: everything stays well-formed, pairwise disjoint, and outside the
/// unmapped range.
pub proof fn lemma_kept_push(
    kpre: Seq<MapArea>,
    kpost: Seq<MapArea>,
    rem: Seq<MapArea>,
    x: MapArea,
    pt: u64,
    k: Kernel,
    lo: usize,
    hi: usize,
)
    requires
        kpost == kpre.push(x),
        x.wf_in(pt, k),
        forall|i: int| 0 <= i < kpre.len() ==> (#[trigger] kpre[i]).wf_in(pt, k),
        forall|i: int, j: int|
            0 <= i < j < kpre.len() ==> (#[trigger] kpre[i]).disjoint(#[trigger] kpre[j]),
        forall|i: int|
            0 <= i < kpre.len() ==> (#[trigger] kpre[i]).end_vpn <= lo || hi <= kpre[i].start_vpn
                || kpre[i].start_vpn == kpre[i].end_vpn,
        forall|i: int, j: int|
            0 <= i < kpre.len() && 0 <= j < rem.len() ==> (#[trigger] kpre[i]).disjoint(
                #[trigger] rem[j],
            ),
        x.end_vpn <= lo || hi <= x.start_vpn || x.start_vpn == x.end_vpn,
        forall|i: int| 0 <= i < kpre.len() ==> (#[trigger] kpre[i]).disjoint(x),
        forall|j: int| 0 <= j < rem.len() ==> x.disjoint(#[trigger] rem[j]),
    ensures
        forall|i: int| 0 <= i < kpost.len() ==> (#[trigger] kpost[i]).wf_in(pt, k),
        forall|i: int, j: int|
            0 <= i < j < kpost.len() ==> (#[trigger] kpost[i]).disjoint(#[trigger] kpost[j]),
        forall|i: int|
            0 <= i < kpost.len() ==> (#[trigger] kpost[i]).end_vpn <= lo || hi <= kpost[i].start_vpn || kpost[i].start_vpn == kpost[i].end_vpn,
        forall|i: int, j: int|
            0 <= i < kpost.len() && 0 <= j < rem.len() ==> (#[trigger] kpost[i]).disjoint(
                #[trigger] rem[j],
            ),
{
    assert forall|i: int, j: int|
        0 <= i < j < kpost.len() implies (#[trigger] kpost[i]).disjoint(
        #[trigger] kpost[j]) by {
        if j == kpre.len() {
            assert(kpre[i].disjoint(x));
        } else {
            assert(kpre[i].disjoint(kpre[j]));
        }
    }
    assert forall|i: int, j: int|
        0 <= i < kpost.len() && 0 <= j < rem.len() implies (#[trigger] kpost[i]).disjoint(
        #[trigger] rem[j]) by {
        if i == kpre.len() {
            assert(x.disjoint(rem[j]));
        } else {
            assert(kpre[i].disjoint(rem[j]));
        }
    }
}

/// A piece of a well-formed area is well-formed: same policy, permission
/// and file, a subrange, the same records on it, and a file offset
/// advanced to match its start.
#[verifier::rlimit(100)]
#[verifier::spinoff_prover]
pub proof fn lemma_split_half_wf(a: MapArea, h: MapArea, pt: u64, k: Kernel)
    requires
        k.wf(),
        a.wf_in(pt, k),
        pt < k.next_pt,
        h.shape_ok(),
        h.map_type == a.map_type,
        h.map_perm == a.map_perm,
        h.file == a.file,
        h.start_vpn < h.end_vpn ==> a.start_vpn <= h.start_vpn && h.end_vpn <= a.end_vpn,
        forall|w: u64|
            h.start_vpn <= w < h.end_vpn && a.pages@.contains_key(w) ==> #[trigger] h.pages@.contains_key(w),
        forall|w: u64|
            h.start_vpn <= w < h.end_vpn && a.pages@.contains_key(w) && h.pages@.contains_key(w)
                ==> #[trigger] h.pages@[w] == a.pages@[w],
        (a.file is Some && h.start_vpn < h.end_vpn) ==> h.file_offset == a.file_offset + (
        h.start_vpn - a.start_vpn) * PAGE_SIZE,
    ensures
        h.wf_in(pt, k),
{
    assert forall|v2: u64|
        h.start_vpn <= v2 < h.end_vpn implies #[trigger] h.pages@.contains_key(v2)
        && MapArea::page_ok(h.pages@[v2], pt, v2 as usize, h, k) by {
        let key = spec_pte_key(pt, v2 as usize);
        assert(a.start_vpn <= v2 < a.end_vpn);
        assert(a.pages@.contains_key(v2));
        assert(MapArea::page_ok(a.pages@[v2], pt, v2 as usize, a, k));
        assert(h.pages@.contains_key(v2));
        assert(h.pages@[v2] == a.pages@[v2]);
        match a.pages@[v2] {
            Page::Identity => {},
            Page::Framed(_) => {},
            Page::FileShared(_) => {
                assert(k.files@[k.fmap@[key]].offset == a.file_offset + (v2 - a.start_vpn)
                    * PAGE_SIZE);
                assert(a.file_offset + (v2 - a.start_vpn) * PAGE_SIZE == h.file_offset + (v2
                    - h.start_vpn) * PAGE_SIZE) by (nonlinear_arith)
                    requires
                        h.file_offset == a.file_offset + (h.start_vpn - a.start_vpn) * PAGE_SIZE,
                        a.start_vpn <= h.start_vpn <= v2,
                ;
            },
            Page::FilePriv(_) => {
                assert(k.files@[k.fmap@[key]].offset == a.file_offset + (v2 - a.start_vpn)
                    * PAGE_SIZE);
                assert(a.file_offset + (v2 - a.start_vpn) * PAGE_SIZE == h.file_offset + (v2
                    - h.start_vpn) * PAGE_SIZE) by (nonlinear_arith)
                    requires
                        h.file_offset == a.file_offset + (h.start_vpn - a.start_vpn) * PAGE_SIZE,
                        a.start_vpn <= h.start_vpn <= v2,
                ;
            },
        }
    }
    assert(h.pages_ok(pt, k));
}

impl MemorySet {
    /// Decides whether some area covers `v`.
    pub fn covered(&self, v: usize) -> (r: bool)
        ensures
            r == self.covers(v),
    {
        let mut i: usize = 0;
        while i < self.areas.len()
            invariant
                i <= self.areas@.len(),
                forall|j: int| 0 <= j < i ==> !(#[trigger] self.areas@[j]).contains_vpn(v),
            decreases self.areas@.len() - i,
        {
            let a = &self.areas[i];
            if a.start_vpn <= v && v < a.end_vpn {
                return true;
            }
            i = i + 1;
        }
        false
    }

    /// Decides whether any page of `[lo, hi)` is covered by an area.
    #[verifier::rlimit(100)]
    #[verifier::spinoff_prover]
    pub fn range_overlaps(&self, lo: usize, hi: usize) -> (r: bool)
        requires
            forall|j: int|
                0 <= j < self.areas@.len() ==> (#[trigger] self.areas@[j]).start_vpn
                    <= self.areas@[j].end_vpn,
        ensures
            r == self.spec_overlaps(lo, hi),
            !r ==> forall|v: usize| lo <= v < hi ==> !self.covers(v),
    {
        let mut i: usize = 0;
        while i < self.areas.len()
            invariant
                i <= self.areas@.len(),
                forall|j: int|
                    0 <= j < self.areas@.len() ==> (#[trigger] self.areas@[j]).start_vpn
                        <= self.areas@[j].end_vpn,
                forall|j: int|
                    0 <= j < i ==> (#[trigger] self.areas@[j]).end_vpn <= lo
                        || hi <= self.areas@[j].start_vpn
                        || self.areas@[j].start_vpn == self.areas@[j].end_vpn
                        || hi <= lo,
            decreases self.areas@.len() - i,
        {
            let a = &self.areas[i];
            proof {
                assert(self.areas@[i as int].start_vpn <= self.areas@[i as int].end_vpn);
            }
            let s = if a.start_vpn > lo {
                a.start_vpn
            } else {
                lo
            };
            if s < a.end_vpn && s < hi {
                proof {
                    assert(self.areas@[i as int].start_vpn < hi && lo < self.areas@[i as int].end_vpn && self.areas@[i as int].start_vpn < self.areas@[i as int].end_vpn);
                }
                return true;
            }
            i = i + 1;
        }
        proof {
            assert(!self.spec_overlaps(lo, hi)) by {
                if self.spec_overlaps(lo, hi) {
                    let j = choose|j: int|
                        0 <= j < self.areas@.len() && (#[trigger] self.areas@[j]).start_vpn < hi && lo < self.areas@[j].end_vpn && self.areas@[j].start_vpn < self.areas@[j].end_vpn;
                    assert(false);
                }
            }
            assert forall|v: usize| lo <= v < hi implies !self.covers(v) by {
                if self.covers(v) {
                    let j = choose|j: int|
                        0 <= j < self.areas@.len() && (#[trigger] self.areas@[j]).contains_vpn(v);
                    assert(false);
                }
            }
        }
        false
    }

    /// Decides whether any page of `[lo, hi)` is uncovered.
    pub fn range_has_hole(&self, lo: usize, hi: usize) -> (r: bool)
        ensures
            r == exists|v: usize| lo <= v < hi && !self.covers(v),
    {
        let mut v: usize = lo;
        while v < hi
            invariant
                lo <= v,
                v <= hi || v == lo,
                forall|w: usize| lo <= w < v ==> self.covers(w),
            decreases hi - v,
        {
            if !self.covered(v) {
                return true;
            }
            v = v + 1;
        }
        false
    }

    /// Maps `[start_va, end_va)` as a file-backed area over `inode` from
    /// `offset`, shared or private. Fails with -1 on a misaligned or
    /// oversized offset, or when the range touches a critical page or an
    /// existing area, leaving everything unchanged.
    #[verifier::rlimit(100)]
    #[verifier::spinoff_prover]
    pub fn mmap_file(
        &mut self,
        k: &mut Kernel,
        start_va: usize,
        end_va: usize,
        perm: Perm,
        inode: Inode,
        offset: usize,
        shared: bool,
    ) -> (r: isize)
        requires
            old(k).wf(),
            old(self).wf_in(*old(k)),
            old(k).file_rc_headroom(VPN_LIMIT as nat),
        ensures
            final(k).wf(),
            final(self).wf_in(*final(k)),
            final(self).pt == old(self).pt,
            final(k).next_pt == old(k).next_pt,
            final(k).next_ppn == old(k).next_ppn,
            final(k).pool@ == old(k).pool@,
            final(k).frames@ == old(k).frames@,
            forall|n: nat|
                n + VPN_LIMIT <= usize::MAX && old(k).file_rc_headroom((n + VPN_LIMIT) as nat)
                    ==> #[trigger] final(k).file_rc_headroom(n),
            r == 0 || r == -1,
            ({
                let lo = spec_vpn_of(start_va as int) as usize;
                let hi0 = spec_vpn_up(end_va as int) as usize;
                let hi = if hi0 > lo {
                    hi0
                } else {
                    lo
                };
                &&& (r == -1 <==> (hi <= lo || offset % PAGE_SIZE != 0 || offset / PAGE_SIZE + (
                    hi - lo) >= 0x100000000 || offset + (hi - lo) * PAGE_SIZE > usize::MAX || (lo
                    <= crate::cfg::TRAMPOLINE_VPN < hi) || (lo <= crate::cfg::TRAP_CONTEXT_VPN
                    < hi) || old(self).spec_overlaps(lo, hi)))
                &&& (r == 0 ==> {
                    let a = final(self).areas@.last();
                    &&& final(self).areas@ == old(self).areas@.push(a)
                    &&& a.start_vpn == lo
                    &&& a.end_vpn == hi
                    &&& (a.map_type == if shared {
                        MapType::FileShared
                    } else {
                        MapType::FilePriv
                    })
                    &&& a.map_perm == perm
                    &&& a.file == Some(inode)
                    &&& a.file_offset == offset
                    &&& (forall|v: usize|
                        lo <= v < hi ==> final(k).fmap@.contains_key(
                            #[trigger] spec_pte_key(old(self).pt, v),
                        ) && !final(k).ptes@[spec_pte_key(old(self).pt, v)].v)
                })
            }),
            r == -1 ==> final(self).areas@ == old(self).areas@ && final(k).ptes@ == old(k).ptes@
                && final(k).fmap@ == old(k).fmap@ && final(k).files@ == old(k).files@,
    {
        let lo = crate::cfg::vpn_floor(start_va);
        let hi0 = crate::cfg::vpn_ceil(end_va);
        let hi = if hi0 > lo {
            hi0
        } else {
            lo
        };
        if offset % PAGE_SIZE != 0 {
            return -1;
        }
        if (offset / PAGE_SIZE) as u64 + ((hi - lo) as u64) >= 0x100000000u64 {
            return -1;
        }
        proof {
            assert(((hi - lo) as u64) * (PAGE_SIZE as u64) < 0x10000000000u64) by (nonlinear_arith)
                requires
                    hi < 0x8000000usize,
                    lo <= hi,
                    PAGE_SIZE == 4096,
            ;
        }
        if ((usize::MAX - offset) as u64) < ((hi - lo) as u64) * (PAGE_SIZE as u64) {
            return -1;
        }
        if hi <= lo {
            return -1;
        }
        if lo <= crate::cfg::TRAMPOLINE_VPN && crate::cfg::TRAMPOLINE_VPN < hi {
            return -1;
        }
        if lo <= crate::cfg::TRAP_CONTEXT_VPN && crate::cfg::TRAP_CONTEXT_VPN < hi {
            return -1;
        }
        proof {
            assert forall|j: int|
                0 <= j < self.areas@.len() implies (#[trigger] self.areas@[j]).start_vpn
                <= self.areas@[j].end_vpn by {
                assert(self.areas@[j].wf_in(self.pt, *k));
            }
        }
        if self.range_overlaps(lo, hi) {
            return -1;
        }
        proof {
            assert forall|v: usize| lo <= v < hi implies !old(k).frames@.contains_key(
                #[trigger] spec_pte_key(self.pt, v),
            ) && !old(k).fmap@.contains_key(spec_pte_key(self.pt, v)) by {
                assert(!self.covers(v));
            }
        }
        let map_type = if shared {
            MapType::FileShared
        } else {
            MapType::FilePriv
        };
        let a = MapArea::map_file(k, self.pt, lo, hi, perm, map_type, inode, offset);
        proof {
            assert forall|n: nat|
                #![trigger k.file_rc_headroom(n)]
                n + VPN_LIMIT <= usize::MAX && old(k).file_rc_headroom((n + VPN_LIMIT) as nat)
                    implies k.file_rc_headroom(n) by {
                assert(old(k).file_rc_headroom((n + (hi - lo)) as nat));
                assert(k.file_rc_headroom((n as nat)));
            }
        }
        self.areas.push(a);
        proof {
            let s1 = *self;
            let n = s1.areas@.len() - 1;
            assert forall|i: int| 0 <= i < s1.areas@.len() implies (#[trigger] s1.areas@[i]).wf_in(
                s1.pt,
                *k,
            ) by {
                if i < n {
                    let ai = old(self).areas@[i];
                    assert(ai.wf_in(s1.pt, *old(k)));
                    assert(ai.end_vpn <= lo || hi <= ai.start_vpn || ai.start_vpn == ai.end_vpn
                        || hi <= lo) by {
                        if !(ai.end_vpn <= lo || hi <= ai.start_vpn) && ai.start_vpn < ai.end_vpn && lo < hi {
                            let w = if ai.start_vpn > lo {
                                ai.start_vpn
                            } else {
                                lo
                            };
                            assert(ai.contains_vpn(w) && lo <= w < hi);
                            assert(old(self).covers(w)) by {
                                assert(0 <= i < old(self).areas@.len() && (
                                #[trigger] old(self).areas@[i]).contains_vpn(w));
                            }
                            assert(old(self).spec_overlaps(lo, hi)) by {
                                assert(0 <= i < old(self).areas@.len() && (#[trigger] old(self).areas@[i]).start_vpn < hi && lo < old(self).areas@[i].end_vpn && old(self).areas@[i].start_vpn < old(self).areas@[i].end_vpn);
                            }
                            assert(false);
                        }
                    }
                    lemma_area_preserved(ai, s1.pt, *old(k), *k, lo, hi);
                    assert(ai.shape_ok());
                    assert(ai.wf_in(s1.pt, *k));
                }
            }
            assert forall|i: int, j: int| 0 <= i < j < s1.areas@.len() implies (
            #[trigger] s1.areas@[i]).disjoint(#[trigger] s1.areas@[j]) by {
                if j == n && i < n {
                    let ai = old(self).areas@[i];
                    if !(ai.end_vpn <= lo || hi <= ai.start_vpn) && ai.start_vpn < ai.end_vpn && lo < hi {
                        let w = if ai.start_vpn > lo {
                            ai.start_vpn
                        } else {
                            lo
                        };
                        assert(ai.contains_vpn(w) && lo <= w < hi);
                        assert(old(self).covers(w)) by {
                            assert(0 <= i < old(self).areas@.len() && (
                            #[trigger] old(self).areas@[i]).contains_vpn(w));
                        }
                        assert(old(self).spec_overlaps(lo, hi)) by {
                            assert(0 <= i < old(self).areas@.len() && (#[trigger] old(self).areas@[i]).start_vpn < hi && lo < old(self).areas@[i].end_vpn && old(self).areas@[i].start_vpn < old(self).areas@[i].end_vpn);
                        }
                        assert(false);
                    }
                } else if j < n {
                    assert(old(self).areas@[i].disjoint(old(self).areas@[j]));
                }
            }
            assert forall|v: usize|
                v < VPN_LIMIT && !s1.covers(v) implies !k.frames@.contains_key(
                #[trigger] spec_pte_key(s1.pt, v),
            ) && !k.fmap@.contains_key(spec_pte_key(s1.pt, v)) by {
                assert(!(lo <= v < hi)) by {
                    if lo <= v < hi {
                        assert(s1.areas@[n as int].contains_vpn(v));
                    }
                }
                assert(!old(self).covers(v)) by {
                    if old(self).covers(v) {
                        let j = choose|j: int|
                            0 <= j < old(self).areas@.len() && (
                            #[trigger] old(self).areas@[j]).contains_vpn(v);
                        assert(s1.areas@[j].contains_vpn(v));
                    }
                }
                assert(!key_in(s1.pt, lo, hi, spec_pte_key(s1.pt, v))) by {
                    if key_in(s1.pt, lo, hi, spec_pte_key(s1.pt, v)) {
                        let w = choose|w: usize|
                            lo <= w < hi && spec_pte_key(s1.pt, v) == spec_pte_key(s1.pt, w);
                        crate::kernel::lemma_pte_key_inj(s1.pt, w, s1.pt, v);
                        assert(w == v);
                    }
                }
            }
        }
        0
    }

    /// Maps `[start_va, end_va)` one-to-one: each page's entry points at
    /// the page itself, valid with the given permission and no tracker
    /// record, as the kernel's own sections are mapped. Fails with -1 on
    /// an empty range, a critical page, or an overlap.
    #[verifier::rlimit(100)]
    #[verifier::spinoff_prover]
    pub fn map_identity(&mut self, k: &mut Kernel, start_va: usize, end_va: usize, perm: Perm) -> (r: isize)
        requires
            old(k).wf(),
            old(self).wf_in(*old(k)),
        ensures
            final(k).wf(),
            final(self).wf_in(*final(k)),
            final(self).pt == old(self).pt,
            final(k).next_pt == old(k).next_pt,
            final(k).next_ppn == old(k).next_ppn,
            final(k).pool@ == old(k).pool@,
            final(k).frames@ == old(k).frames@,
            final(k).fmap@ == old(k).fmap@,
            final(k).files@ == old(k).files@,
            ({
                let lo = spec_vpn_of(start_va as int) as usize;
                let hi0 = spec_vpn_up(end_va as int) as usize;
                let hi = if hi0 > lo {
                    hi0
                } else {
                    lo
                };
                &&& (r == -1 <==> (hi <= lo || (lo <= crate::cfg::TRAMPOLINE_VPN < hi) || (lo
                    <= crate::cfg::TRAP_CONTEXT_VPN < hi) || old(self).spec_overlaps(lo, hi)))
                &&& (r == -1 ==> final(self).areas@ == old(self).areas@ && final(k).ptes@ == old(k).ptes@)
                &&& (r == 0 ==> {
                    let a = final(self).areas@.last();
                    &&& final(self).areas@ == old(self).areas@.push(a)
                    &&& a.start_vpn == lo
                    &&& a.end_vpn == hi
                    &&& a.map_type is Identity
                    &&& a.map_perm == perm
                    &&& a.file is None
                    &&& (forall|v: usize|
                        lo <= v < hi ==> final(k).ptes@.contains_key(
                            #[trigger] spec_pte_key(old(self).pt, v),
                        ) && final(k).ptes@[spec_pte_key(old(self).pt, v)] == Pte::spec_valid(
                            v as u64,
                            perm,
                        ))
                    &&& (forall|key: u64|
                        !key_in(old(self).pt, lo, hi, key) ==> #[trigger] final(k).ptes@.contains_key(key) == old(k).ptes@.contains_key(key))
                    &&& (forall|key: u64|
                        !key_in(old(self).pt, lo, hi, key) && old(k).ptes@.contains_key(key)
                            ==> #[trigger] final(k).ptes@[key] == old(k).ptes@[key])
                })
                &&& (r == 0 || r == -1)
            }),
    {
        let lo = crate::cfg::vpn_floor(start_va);
        let hi0 = crate::cfg::vpn_ceil(end_va);
        let hi = if hi0 > lo {
            hi0
        } else {
            lo
        };
        if hi <= lo {
            return -1;
        }
        if lo <= crate::cfg::TRAMPOLINE_VPN && crate::cfg::TRAMPOLINE_VPN < hi {
            return -1;
        }
        if lo <= crate::cfg::TRAP_CONTEXT_VPN && crate::cfg::TRAP_CONTEXT_VPN < hi {
            return -1;
        }
        proof {
            assert forall|j: int|
                0 <= j < self.areas@.len() implies (#[trigger] self.areas@[j]).start_vpn
                <= self.areas@[j].end_vpn by {
                assert(self.areas@[j].wf_in(self.pt, *k));
            }
        }
        if self.range_overlaps(lo, hi) {
            return -1;
        }
        proof {
            assert forall|v: usize| lo <= v < hi implies !old(k).frames@.contains_key(
                #[trigger] spec_pte_key(self.pt, v),
            ) && !old(k).fmap@.contains_key(spec_pte_key(self.pt, v)) by {
                assert(!self.covers(v));
            }
        }
        let a = MapArea::map_identity(k, self.pt, lo, hi, perm);
        self.areas.push(a);
        proof {
            let s1 = *self;
            let n = s1.areas@.len() - 1;
            assert forall|i: int| 0 <= i < s1.areas@.len() implies (#[trigger] s1.areas@[i]).wf_in(
                s1.pt,
                *k,
            ) by {
                if i < n {
                    let ai = old(self).areas@[i];
                    assert(ai.wf_in(s1.pt, *old(k)));
                    assert(ai.end_vpn <= lo || hi <= ai.start_vpn || ai.start_vpn == ai.end_vpn
                        || hi <= lo) by {
                        if !(ai.end_vpn <= lo || hi <= ai.start_vpn) && ai.start_vpn < ai.end_vpn && lo < hi {
                            let w = if ai.start_vpn > lo {
                                ai.start_vpn
                            } else {
                                lo
                            };
                            assert(ai.contains_vpn(w) && lo <= w < hi);
                            assert(old(self).covers(w)) by {
                                assert(0 <= i < old(self).areas@.len() && (
                                #[trigger] old(self).areas@[i]).contains_vpn(w));
                            }
                        }
                    }
                    lemma_area_preserved(ai, s1.pt, *old(k), *k, lo, hi);
                    assert(ai.shape_ok());
                    assert(ai.wf_in(s1.pt, *k));
                }
            }
            assert forall|i: int, j: int| 0 <= i < j < s1.areas@.len() implies (
            #[trigger] s1.areas@[i]).disjoint(#[trigger] s1.areas@[j]) by {
                if j == n && i < n {
                    let ai = old(self).areas@[i];
                    if !(ai.end_vpn <= lo || hi <= ai.start_vpn) && ai.start_vpn < ai.end_vpn && lo < hi {
                        let w = if ai.start_vpn > lo {
                            ai.start_vpn
                        } else {
                            lo
                        };
                        assert(ai.contains_vpn(w) && lo <= w < hi);
                        assert(old(self).covers(w)) by {
                            assert(0 <= i < old(self).areas@.len() && (
                            #[trigger] old(self).areas@[i]).contains_vpn(w));
                        }
                        assert(old(self).spec_overlaps(lo, hi)) by {
                            assert(0 <= i < old(self).areas@.len() && (#[trigger] old(self).areas@[i]).start_vpn < hi && lo < old(self).areas@[i].end_vpn && old(self).areas@[i].start_vpn < old(self).areas@[i].end_vpn);
                        }
                        assert(false);
                    }
                } else if j < n {
                    assert(old(self).areas@[i].disjoint(old(self).areas@[j]));
                }
            }
            assert forall|v: usize|
                v < VPN_LIMIT && !s1.covers(v) implies !k.frames@.contains_key(
                #[trigger] spec_pte_key(s1.pt, v),
            ) && !k.fmap@.contains_key(spec_pte_key(s1.pt, v)) by {
                assert(!old(self).covers(v)) by {
                    if old(self).covers(v) {
                        let j = choose|j: int|
                            0 <= j < old(self).areas@.len() && (
                            #[trigger] old(self).areas@[j]).contains_vpn(v);
                        assert(s1.areas@[j].contains_vpn(v));
                    }
                }
            }
        }
        0
    }

    /// Builds the kernel's own address space: each section, given as a
    /// byte range with its permission, is mapped one-to-one. `None` when a
    /// section is empty, touches a critical page, or overlaps another.
    pub fn new_kernel(k: &mut Kernel, sections: &Vec<(usize, usize, Perm)>) -> (r: Option<
        MemorySet,
    >)
        requires
            old(k).wf(),
            old(k).next_pt < crate::kernel::PT_MAX,
        ensures
            final(k).wf(),
            final(k).next_ppn == old(k).next_ppn,
            final(k).pool@ == old(k).pool@,
            final(k).frames@ == old(k).frames@,
            final(k).fmap@ == old(k).fmap@,
            final(k).files@ == old(k).files@,
            r matches Some(ms) ==> ({
                &&& ms.wf_in(*final(k))
                &&& ms.areas@.len() == sections@.len()
                &&& (forall|i: int|
                    0 <= i < sections@.len() ==> {
                        let a = #[trigger] ms.areas@[i];
                        let lo = spec_vpn_of(sections@[i].0 as int) as usize;
                        let hi0 = spec_vpn_up(sections@[i].1 as int) as usize;
                        let hi = if hi0 > lo {
                            hi0
                        } else {
                            lo
                        };
                        &&& a.start_vpn == lo
                        &&& a.end_vpn == hi
                        &&& a.map_type is Identity
                        &&& a.map_perm == sections@[i].2
                        &&& (forall|v: usize|
                            lo <= v < hi ==> final(k).ptes@.contains_key(
                                #[trigger] spec_pte_key(ms.pt, v),
                            ) && final(k).ptes@[spec_pte_key(ms.pt, v)] == Pte::spec_valid(
                                v as u64,
                                sections@[i].2,
                            ))
                    })
            }),
    {
        let mut ms = MemorySet::new_bare(k);
        let mut i: usize = 0;
        while i < sections.len()
            invariant
                k.wf(),
                ms.wf_in(*k),
                k.next_ppn == old(k).next_ppn,
                k.pool@ == old(k).pool@,
                k.frames@ == old(k).frames@,
                k.fmap@ == old(k).fmap@,
                k.files@ == old(k).files@,
                ms.areas@.len() == i,
                i <= sections@.len(),
                forall|j: int|
                    0 <= j < i ==> {
                        let a = #[trigger] ms.areas@[j];
                        let lo = spec_vpn_of(sections@[j].0 as int) as usize;
                        let hi0 = spec_vpn_up(sections@[j].1 as int) as usize;
                        let hi = if hi0 > lo {
                            hi0
                        } else {
                            lo
                        };
                        &&& a.start_vpn == lo
                        &&& a.end_vpn == hi
                        &&& a.map_type is Identity
                        &&& a.map_perm == sections@[j].2
                        &&& (forall|v: usize|
                            lo <= v < hi ==> k.ptes@.contains_key(
                                #[trigger] spec_pte_key(ms.pt, v),
                            ) && k.ptes@[spec_pte_key(ms.pt, v)] == Pte::spec_valid(
                                v as u64,
                                sections@[j].2,
                            ))
                    },
            decreases sections@.len() - i,
        {
            let sv = sections[i].0;
            let ev = sections[i].1;
            let p = sections[i].2;
            let ghost apre = ms.areas@;
            let ghost kpre2 = *k;
            let rr = ms.map_identity(k, sv, ev, p);
            if rr != 0 {
                return None;
            }
            i = i + 1;
            proof {
                assert(ms.areas@ == apre.push(ms.areas@.last()));
                assert forall|j: int| 0 <= j < i - 1 implies ms.areas@[j] == apre[j] by {}
                let lo_i = crate::cfg::spec_vpn_of(sv as int) as usize;
                let hi0_i = crate::cfg::spec_vpn_up(ev as int) as usize;
                let hi_i = if hi0_i > lo_i {
                    hi0_i
                } else {
                    lo_i
                };
                assert forall|j: int|
                    #![trigger apre[j]]
                    0 <= j < i - 1 implies (forall|v: usize|
                    (spec_vpn_of(sections@[j].0 as int) as usize) <= v < ({
                        let lo = spec_vpn_of(sections@[j].0 as int) as usize;
                        let hi0 = spec_vpn_up(sections@[j].1 as int) as usize;
                        if hi0 > lo {
                            hi0
                        } else {
                            lo
                        }
                    }) ==> k.ptes@.contains_key(#[trigger] spec_pte_key(ms.pt, v))
                        && k.ptes@[spec_pte_key(ms.pt, v)] == Pte::spec_valid(
                        v as u64,
                        sections@[j].2,
                    )) by {
                    let lo = spec_vpn_of(sections@[j].0 as int) as usize;
                    let hi0 = spec_vpn_up(sections@[j].1 as int) as usize;
                    let hi = if hi0 > lo {
                        hi0
                    } else {
                        lo
                    };
                    assert forall|v: usize|
                        lo <= v < hi implies k.ptes@.contains_key(
                        #[trigger] spec_pte_key(ms.pt, v),
                    ) && k.ptes@[spec_pte_key(ms.pt, v)] == Pte::spec_valid(
                        v as u64,
                        sections@[j].2,
                    ) by {
                        assert(0 <= j < apre.len());
                        assert(apre[j].start_vpn == lo && apre[j].end_vpn == hi);
                        assert(kpre2.ptes@.contains_key(spec_pte_key(ms.pt, v)));
                        assert(kpre2.ptes@[spec_pte_key(ms.pt, v)] == Pte::spec_valid(
                            v as u64,
                            sections@[j].2,
                        ));
                        assert(apre[j].contains_vpn(v));
                        assert(!(lo_i <= v < hi_i)) by {
                            if lo_i <= v < hi_i {
                                assert(ms.areas@.last().contains_vpn(v));
                                assert(apre[j].disjoint(ms.areas@.last()));
                            }
                        }
                        assert(!key_in(ms.pt, lo_i, hi_i, spec_pte_key(ms.pt, v))) by {
                            if key_in(ms.pt, lo_i, hi_i, spec_pte_key(ms.pt, v)) {
                                let w = choose|w: usize|
                                    lo_i <= w < hi_i && spec_pte_key(ms.pt, v)
                                        == spec_pte_key(ms.pt, w);
                                crate::kernel::lemma_pte_key_inj(ms.pt, w, ms.pt, v);
                            }
                        }
                    }
                }
            }
        }
        Some(ms)
    }

    /// Builds a user address space from a program image: every segment
    /// is mapped lazily over the backing inode, and the user stack sits
    /// one guard page above the highest segment. Returns the space, the
    /// initial stack top and the entry point; `None` when a segment is
    /// rejected (misaligned offset, overlap, critical page, empty range)
    /// or the stack does not fit below the trap context.
    #[verifier::rlimit(100)]
    #[verifier::spinoff_prover]
    pub fn from_segments(
        k: &mut Kernel,
        inode: crate::vfs::Inode,
        segs: &Vec<Segment>,
        entry: usize,
    ) -> (r: Option<(MemorySet, usize, usize)>)
        requires
            old(k).wf(),
            old(k).next_pt < crate::kernel::PT_MAX,
            (segs@.len() + 1) * VPN_LIMIT <= usize::MAX,
            old(k).file_rc_headroom(((segs@.len() + 1) * VPN_LIMIT) as nat),
        ensures
            final(k).wf(),
            final(k).next_ppn == old(k).next_ppn,
            r matches Some(t) ==> ({
                let ms = t.0;
                &&& ms.wf_in(*final(k))
                &&& t.2 == entry
                &&& ms.areas@.len() == segs@.len() + 1
                &&& (forall|i: int|
                    0 <= i < segs@.len() ==> {
                        let a = #[trigger] ms.areas@[i];
                        let lo = crate::cfg::spec_vpn_of(segs@[i].start_va as int) as usize;
                        let hi0 = crate::cfg::spec_vpn_up(segs@[i].end_va as int) as usize;
                        let hi = if hi0 > lo {
                            hi0
                        } else {
                            lo
                        };
                        &&& a.start_vpn == lo
                        &&& a.end_vpn == hi
                        &&& a.map_perm == segs@[i].perm
                        &&& a.map_type is FilePriv
                        &&& a.file == Some(inode)
                        &&& a.file_offset == segs@[i].file_offset
                    })
                &&& ({
                    let st = ms.areas@.last();
                    &&& st.map_type is Framed
                    &&& st.map_perm == (Perm { r: true, w: true, x: false, u: true })
                    &&& st.file is None
                    &&& st.end_vpn == st.start_vpn + crate::cfg::USER_STACK_SIZE / PAGE_SIZE
                    &&& st.end_vpn <= crate::cfg::TRAP_CONTEXT_VPN
                    &&& t.1 == st.end_vpn * PAGE_SIZE
                    &&& (forall|i: int|
                        0 <= i < segs@.len() ==> (#[trigger] ms.areas@[i]).end_vpn
                            < st.start_vpn)
                })
            }),
    {
        let mut ms = MemorySet::new_bare(k);
        let mut max_end: usize = 0;
        let mut i: usize = 0;
        while i < segs.len()
            invariant
                k.wf(),
                ms.wf_in(*k),
                k.next_ppn == old(k).next_ppn,
                (segs@.len() + 1) * VPN_LIMIT <= usize::MAX,
                k.file_rc_headroom(((segs@.len() - i + 1) * VPN_LIMIT) as nat),
                ms.areas@.len() == i,
                i <= segs@.len(),
                max_end < VPN_LIMIT,
                forall|j: int|
                    0 <= j < i ==> {
                        let a = #[trigger] ms.areas@[j];
                        let lo = crate::cfg::spec_vpn_of(segs@[j].start_va as int) as usize;
                        let hi0 = crate::cfg::spec_vpn_up(segs@[j].end_va as int) as usize;
                        let hi = if hi0 > lo {
                            hi0
                        } else {
                            lo
                        };
                        &&& a.start_vpn == lo
                        &&& a.end_vpn == hi
                        &&& a.map_perm == segs@[j].perm
                        &&& a.map_type is FilePriv
                        &&& a.file == Some(inode)
                        &&& a.file_offset == segs@[j].file_offset
                    },
                forall|j: int| 0 <= j < i ==> (#[trigger] ms.areas@[j]).end_vpn <= max_end,
            decreases segs@.len() - i,
        {
            let sv = segs[i].start_va;
            let ev = segs[i].end_va;
            let off = segs[i].file_offset;
            let p = segs[i].perm;
            let ghost apre = ms.areas@;
            proof {
                assert((segs@.len() - i + 1) * VPN_LIMIT >= VPN_LIMIT) by (nonlinear_arith)
                    requires
                        i < segs@.len(),
                ;
                assert(k.file_rc_headroom(VPN_LIMIT as nat));
            }
            let ghost kc = *k;
            let rr = ms.mmap_file(k, sv, ev, p, inode, off, false);
            if rr != 0 {
                return None;
            }
            proof {
                let b2: nat = ((segs@.len() - (i + 1) + 1) * VPN_LIMIT) as nat;
                assert(b2 + VPN_LIMIT == (segs@.len() - i + 1) * VPN_LIMIT) by (nonlinear_arith)
                    requires
                        i < segs@.len(),
                        b2 == (segs@.len() - (i + 1) + 1) * VPN_LIMIT,
                ;
                assert(b2 + VPN_LIMIT <= usize::MAX) by (nonlinear_arith)
                    requires
                        i < segs@.len(),
                        b2 + VPN_LIMIT == (segs@.len() - i + 1) * VPN_LIMIT,
                        (segs@.len() + 1) * VPN_LIMIT <= usize::MAX,
                ;
                assert(kc.file_rc_headroom((b2 + VPN_LIMIT) as nat));
                assert(k.file_rc_headroom(b2));
            }
            let new_end = ms.areas[ms.areas.len() - 1].end_vpn;
            if new_end > max_end {
                max_end = new_end;
            }
            i = i + 1;
            proof {
                assert(ms.areas@ == apre.push(ms.areas@.last()));
                assert forall|j: int| 0 <= j < i - 1 implies ms.areas@[j] == apre[j] by {}
            }
        }
        if max_end >= crate::cfg::TRAP_CONTEXT_VPN {
            return None;
        }
        let stack_lo = max_end + 1;
        let pages = crate::cfg::USER_STACK_SIZE / PAGE_SIZE;
        if crate::cfg::TRAP_CONTEXT_VPN - stack_lo < pages {
            return None;
        }
        if stack_lo + pages > usize::MAX / PAGE_SIZE {
            return None;
        }
        proof {
            assert(stack_lo + pages <= crate::cfg::TRAP_CONTEXT_VPN);
            assert((stack_lo + pages) * PAGE_SIZE <= usize::MAX && stack_lo * PAGE_SIZE
                <= usize::MAX) by (nonlinear_arith)
                requires
                    stack_lo + pages <= usize::MAX / 4096,
                    0 < stack_lo,
                    PAGE_SIZE == 4096,
            ;
        }
        let ghost apre2 = ms.areas@;
        let rs = ms.mmap(
            k,
            stack_lo * PAGE_SIZE,
            (stack_lo + pages) * PAGE_SIZE,
            Perm { r: true, w: true, x: false, u: true },
        );
        if rs != 0 {
            return None;
        }
        proof {
            vstd::arithmetic::div_mod::lemma_div_multiples_vanish(stack_lo as int, 4096);
            assert((stack_lo * PAGE_SIZE) as int == 4096 * (stack_lo as int))
                by (nonlinear_arith)
                requires
                    PAGE_SIZE == 4096,
            ;
            assert(crate::cfg::spec_vpn_of((stack_lo * PAGE_SIZE) as int) == stack_lo as int);
            let m2: int = (stack_lo + pages) as int;
            vstd::arithmetic::div_mod::lemma_div_multiples_vanish_fancy(m2, 4095, 4096);
            assert((4096 * m2 + 4095) / 4096 == m2);
            assert(((stack_lo + pages) * PAGE_SIZE) as int == 4096 * m2) by (nonlinear_arith)
                requires
                    PAGE_SIZE == 4096,
                    m2 == (stack_lo + pages) as int,
            ;
            assert(crate::cfg::spec_vpn_up(((stack_lo + pages) * PAGE_SIZE) as int) == m2);
            assert(ms.areas@.len() == segs@.len() + 1);
            assert forall|j: int| 0 <= j < segs@.len() implies ms.areas@[j] == apre2[j] by {}
            assert(ms.areas@.last().start_vpn == stack_lo);
            assert(ms.areas@.last().end_vpn == stack_lo + pages);
        }
        Some((ms, (stack_lo + pages) * PAGE_SIZE, entry))
    }

    /// Unmaps `[start_va, end_va)`: areas outside the range are kept,
    /// areas inside are dropped with their records, and an area straddling
    /// a boundary is split so that only its parts outside the range
    /// survive. Fails with -1 when the range touches a critical page or an
    /// unmapped hole, leaving everything unchanged.
    #[verifier::rlimit(100)]
    #[verifier::spinoff_prover]
    pub fn munmap(&mut self, k: &mut Kernel, start_va: usize, end_va: usize) -> (r: isize)
        requires
            old(k).wf(),
            old(self).wf_in(*old(k)),
        ensures
            final(k).wf(),
            final(self).wf_in(*final(k)),
            final(self).pt == old(self).pt,
            final(k).next_pt == old(k).next_pt,
            forall|p: u64|
                #[trigger] final(k).pool@.contains_key(p) ==> old(k).pool@.contains_key(p)
                    && final(k).pool@[p].bytes@ == old(k).pool@[p].bytes@,
            r == 0 || r == -1,
            ({
                let lo = crate::cfg::spec_vpn_of(start_va as int) as usize;
                let hi0 = crate::cfg::spec_vpn_up(end_va as int) as usize;
                let hi = if hi0 > lo {
                    hi0
                } else {
                    lo
                };
                &&& (r == -1 <==> ((lo <= crate::cfg::TRAMPOLINE_VPN < hi) || (lo
                    <= crate::cfg::TRAP_CONTEXT_VPN < hi) || exists|v: usize|
                    lo <= v < hi && !(#[trigger] old(self).covers(v))))
                &&& (r == -1 ==> final(self).areas@ == old(self).areas@ && final(k).frames@ == old(k).frames@ && final(k).ptes@ == old(k).ptes@ && final(k).fmap@ == old(k).fmap@
                    && final(k).pool@ == old(k).pool@ && final(k).files@ == old(k).files@)
                &&& (r == 0 ==> forall|v: usize|
                    lo <= v < hi ==> !final(self).covers(v) && !final(k).frames@.contains_key(
                        #[trigger] spec_pte_key(old(self).pt, v),
                    ) && !final(k).fmap@.contains_key(spec_pte_key(old(self).pt, v)))
                &&& (r == 0 ==> forall|v: usize|
                    v < VPN_LIMIT && !(lo <= v < hi) ==> #[trigger] final(self).covers(v) == old(self).covers(v))
                &&& (r == 0 ==> (forall|key: u64|
                    !key_in(old(self).pt, lo, hi, key) ==> #[trigger] final(k).frames@.contains_key(key) == old(k).frames@.contains_key(key) && (old(k).frames@.contains_key(key) ==> final(k).frames@[key] == old(k).frames@[key])))
                &&& (r == 0 ==> (forall|key: u64|
                    !key_in(old(self).pt, lo, hi, key) ==> #[trigger] final(k).fmap@.contains_key(key) == old(k).fmap@.contains_key(key) && (old(k).fmap@.contains_key(
                        key,
                    ) ==> final(k).fmap@[key] == old(k).fmap@[key])))
                &&& (r == 0 ==> (forall|key: u64|
                    !key_in(old(self).pt, lo, hi, key) ==> #[trigger] final(k).ptes@.contains_key(key) == old(k).ptes@.contains_key(key) && (old(k).ptes@.contains_key(
                        key,
                    ) ==> final(k).ptes@[key] == old(k).ptes@[key])))
                &&& (r == 0 ==> forall|v: usize|
                    lo <= v < hi && final(k).ptes@.contains_key(
                        #[trigger] spec_pte_key(old(self).pt, v),
                    ) ==> !final(k).ptes@[spec_pte_key(old(self).pt, v)].v)
                &&& (r == 0 ==> forall|i: int|
                    0 <= i < final(self).areas@.len() ==> ((#[trigger] final(self).areas@[i]).end_vpn <= lo || hi <= final(self).areas@[i].start_vpn || final(self).areas@[i].start_vpn == final(self).areas@[i].end_vpn || hi <= lo)
                        && exists|j: int|
                        0 <= j < old(self).areas@.len() && remnant_of(
                            final(self).areas@[i],
                            #[trigger] old(self).areas@[j],
                        ))
                &&& (r == 0 ==> forall|j: int|
                    0 <= j < old(self).areas@.len() && ((#[trigger] old(self).areas@[j]).end_vpn
                        <= lo || hi <= old(self).areas@[j].start_vpn || old(self).areas@[j].start_vpn == old(self).areas@[j].end_vpn) ==> exists|i: int|
                        0 <= i < final(self).areas@.len() && (#[trigger] final(self).areas@[i])
                            == old(self).areas@[j])
            }),
    {
        let lo = crate::cfg::vpn_floor(start_va);
        let hi0 = crate::cfg::vpn_ceil(end_va);
        let hi = if hi0 > lo {
            hi0
        } else {
            lo
        };
        if lo <= crate::cfg::TRAMPOLINE_VPN && crate::cfg::TRAMPOLINE_VPN < hi {
            return -1;
        }
        if lo <= crate::cfg::TRAP_CONTEXT_VPN && crate::cfg::TRAP_CONTEXT_VPN < hi {
            return -1;
        }
        if self.range_has_hole(lo, hi) {
            proof {
                let v = choose|v: usize| lo <= v < hi && !self.covers(v);
                assert(lo <= v < hi && !(old(self).covers(v)));
                assert(exists|v2: usize| lo <= v2 < hi && !(#[trigger] old(self).covers(v2)));
            }
            return -1;
        }
        proof {
            assert forall|v: usize| lo <= v < hi implies #[trigger] old(self).covers(v) by {}
        }
        proof {
            assert forall|v: usize| lo <= v < hi implies covered_by(self.areas@, v) by {
                assert(old(self).covers(v));
                let i = choose|i: int|
                    0 <= i < old(self).areas@.len() && (
                    #[trigger] old(self).areas@[i]).contains_vpn(v);
                assert(self.areas@[i].contains_vpn(v));
            }
        }
        if hi <= lo {
            proof {
                assert(self.areas@ == old(self).areas@);
                assert forall|i: int|
                    #![trigger self.areas@[i]]
                    0 <= i < self.areas@.len() implies exists|j: int|
                    0 <= j < old(self).areas@.len() && remnant_of(
                        self.areas@[i],
                        #[trigger] old(self).areas@[j],
                    ) by {
                    assert(old(self).areas@[i].wf_in(old(self).pt, *old(k)));
                    assert(remnant_of(self.areas@[i], old(self).areas@[i]));
                }
                assert forall|j: int|
                    #![trigger old(self).areas@[j]]
                    0 <= j < old(self).areas@.len() implies exists|i: int|
                    0 <= i < self.areas@.len() && (#[trigger] self.areas@[i]) == old(self).areas@[j] by {
                    assert(0 <= j < self.areas@.len());
                    lemma_seq_witness(self.areas@, j, old(self).areas@[j]);
                }
            }
            return 0;
        }
        let pt = self.pt;
        let ghost mut done: int = 0;
        let mut kept: Vec<MapArea> = Vec::new();
        while self.areas.len() > 0
            invariant
                old(k).wf(),
                k.wf(),
                pt == old(self).pt,
                self.pt == pt,
                pt < k.next_pt,
                k.next_pt == old(k).next_pt,
                hi <= VPN_LIMIT,
                lo < VPN_LIMIT,
                lo < hi,
                0 <= done <= old(self).areas@.len(),
                self.areas@ == old(self).areas@.skip(done),
                forall|i: int|
                    0 <= i < kept@.len() ==> exists|j: int|
                        0 <= j < done && remnant_of(#[trigger] kept@[i], old(self).areas@[j]),
                forall|j: int|
                    0 <= j < done && ((#[trigger] old(self).areas@[j]).end_vpn <= lo || hi
                        <= old(self).areas@[j].start_vpn || old(self).areas@[j].start_vpn
                        == old(self).areas@[j].end_vpn) ==> exists|i: int|
                        0 <= i < kept@.len() && (#[trigger] kept@[i]) == old(self).areas@[j],
                forall|v: usize|
                    lo <= v < hi && !covered_by(self.areas@, v) && k.ptes@.contains_key(
                        #[trigger] spec_pte_key(pt, v),
                    ) ==> !k.ptes@[spec_pte_key(pt, v)].v,
                forall|p: u64|
                    #[trigger] k.pool@.contains_key(p) ==> old(k).pool@.contains_key(p)
                        && k.pool@[p].bytes@ == old(k).pool@[p].bytes@,
                forall|i: int|
                    0 <= i < self.areas@.len() ==> (#[trigger] self.areas@[i]).wf_in(pt, *k),
                forall|i: int|
                    0 <= i < kept@.len() ==> (#[trigger] kept@[i]).wf_in(pt, *k),
                forall|i: int, j: int|
                    0 <= i < j < self.areas@.len() ==> (#[trigger] self.areas@[i]).disjoint(
                        #[trigger] self.areas@[j],
                    ),
                forall|i: int, j: int|
                    0 <= i < j < kept@.len() ==> (#[trigger] kept@[i]).disjoint(
                        #[trigger] kept@[j],
                    ),
                forall|i: int, j: int|
                    0 <= i < kept@.len() && 0 <= j < self.areas@.len() ==> (
                    #[trigger] kept@[i]).disjoint(#[trigger] self.areas@[j]),
                forall|i: int|
                    0 <= i < kept@.len() ==> (#[trigger] kept@[i]).end_vpn <= lo
                        || hi <= kept@[i].start_vpn || kept@[i].start_vpn == kept@[i].end_vpn,
                forall|v: usize|
                    v < VPN_LIMIT && !(lo <= v < hi) ==> ((covered_by(kept@, v) || covered_by(
                        self.areas@,
                        v,
                    )) <==> old(self).covers(v)),
                forall|v: usize|
                    lo <= v < hi && !covered_by(self.areas@, v) ==> !k.frames@.contains_key(
                        #[trigger] spec_pte_key(pt, v),
                    ) && !k.fmap@.contains_key(spec_pte_key(pt, v)),
                forall|v: usize|
                    v < VPN_LIMIT && !covered_by(kept@, v) && !covered_by(self.areas@, v)
                        ==> !k.frames@.contains_key(#[trigger] spec_pte_key(pt, v))
                        && !k.fmap@.contains_key(spec_pte_key(pt, v)),
                forall|key: u64|
                    !key_in(pt, lo, hi, key) ==> #[trigger] k.frames@.contains_key(key) == old(k).frames@.contains_key(key) && (old(k).frames@.contains_key(key)
                        ==> k.frames@[key] == old(k).frames@[key]),
                forall|key: u64|
                    !key_in(pt, lo, hi, key) ==> #[trigger] k.fmap@.contains_key(key) == old(k).fmap@.contains_key(key) && (old(k).fmap@.contains_key(key) ==> k.fmap@[key]
                        == old(k).fmap@[key]),
                forall|key: u64|
                    !key_in(pt, lo, hi, key) ==> #[trigger] k.ptes@.contains_key(key) == old(k).ptes@.contains_key(key) && (old(k).ptes@.contains_key(key) ==> k.ptes@[key]
                        == old(k).ptes@[key]),
            decreases self.areas@.len(),
        {
            let ghost rpre = self.areas@;
            let ghost kpre = kept@;
            let a = self.areas.remove(0);
            proof {
                assert(a == rpre[0]);
                assert(self.areas@ =~= rpre.skip(1));
                assert forall|i: int|
                    0 <= i < self.areas@.len() implies (#[trigger] self.areas@[i]).wf_in(
                    pt,
                    *k,
                ) by {
                    assert(self.areas@[i] == rpre[i + 1]);
                }
            }
            if a.end_vpn <= lo || hi <= a.start_vpn || a.start_vpn == a.end_vpn {
                kept.push(a);
                proof {
                    assert(kept@ =~= kpre.push(a));
                    assert forall|i: int, j: int|
                        0 <= i < j < kept@.len() implies (#[trigger] kept@[i]).disjoint(
                        #[trigger] kept@[j]) by {
                        if j == kpre.len() {
                            assert(kept@[i] == kpre[i] && kept@[j] == rpre[0]);
                            assert(kpre[i].disjoint(rpre[0]));
                        } else {
                            assert(kpre[i].disjoint(kpre[j]));
                        }
                    }
                    assert forall|i: int, j: int|
                        0 <= i < kept@.len() && 0 <= j < self.areas@.len() implies (
                    #[trigger] kept@[i]).disjoint(#[trigger] self.areas@[j]) by {
                        assert(self.areas@[j] == rpre[j + 1]);
                        if i == kpre.len() {
                            assert(rpre[0].disjoint(rpre[j + 1]));
                        } else {
                            assert(kpre[i].disjoint(rpre[j + 1]));
                        }
                    }
                    assert forall|v: usize|
                        v < VPN_LIMIT && !(lo <= v < hi) implies ((covered_by(kept@, v)
                        || covered_by(self.areas@, v)) <==> old(self).covers(v)) by {
                        if covered_by(kept@, v) {
                            let j = choose|j: int|
                                0 <= j < kept@.len() && (#[trigger] kept@[j]).contains_vpn(v);
                            if j < kpre.len() {
                                assert(covered_by(kpre, v));
                            } else {
                                assert(rpre[0].contains_vpn(v));
                                assert(covered_by(rpre, v));
                            }
                        }
                        if covered_by(self.areas@, v) {
                            let j = choose|j: int|
                                0 <= j < self.areas@.len() && (
                                #[trigger] self.areas@[j]).contains_vpn(v);
                            assert(rpre[j + 1].contains_vpn(v));
                            assert(covered_by(rpre, v));
                        }
                        if covered_by(kpre, v) {
                            let j = choose|j: int|
                                0 <= j < kpre.len() && (#[trigger] kpre[j]).contains_vpn(v);
                            assert(kept@[j].contains_vpn(v));
                            assert(covered_by(kept@, v));
                        }
                        if covered_by(rpre, v) {
                            let j = choose|j: int|
                                0 <= j < rpre.len() && (#[trigger] rpre[j]).contains_vpn(v);
                            if j == 0 {
                                assert(kept@[kpre.len() as int].contains_vpn(v));
                                assert(covered_by(kept@, v));
                            } else {
                                assert(self.areas@[j - 1].contains_vpn(v));
                                assert(covered_by(self.areas@, v));
                            }
                        }
                    }
                    assert forall|v: usize|
                        lo <= v < hi && !covered_by(self.areas@, v) implies !k.frames@.contains_key(#[trigger] spec_pte_key(pt, v)) && !k.fmap@.contains_key(
                        spec_pte_key(pt, v),
                    ) by {
                        assert(!a.contains_vpn(v));
                        assert(!covered_by(rpre, v)) by {
                            if covered_by(rpre, v) {
                                let j = choose|j: int|
                                    0 <= j < rpre.len() && (#[trigger] rpre[j]).contains_vpn(v);
                                assert(j != 0);
                                assert(self.areas@[j - 1].contains_vpn(v));
                            }
                        }
                    }
                    assert forall|v: usize|
                        v < VPN_LIMIT && !covered_by(kept@, v) && !covered_by(self.areas@, v)
                            implies !k.frames@.contains_key(#[trigger] spec_pte_key(pt, v))
                        && !k.fmap@.contains_key(spec_pte_key(pt, v)) by {
                        assert(!covered_by(kpre, v)) by {
                            if covered_by(kpre, v) {
                                let j = choose|j: int|
                                    0 <= j < kpre.len() && (#[trigger] kpre[j]).contains_vpn(v);
                                assert(kept@[j].contains_vpn(v));
                            }
                        }
                        assert(!covered_by(rpre, v)) by {
                            if covered_by(rpre, v) {
                                let j = choose|j: int|
                                    0 <= j < rpre.len() && (#[trigger] rpre[j]).contains_vpn(v);
                                if j == 0 {
                                    assert(kept@[kpre.len() as int].contains_vpn(v));
                                } else {
                                    assert(self.areas@[j - 1].contains_vpn(v));
                                }
                            }
                        }
                    }
                    assert(a == old(self).areas@[done]);
                    assert(self.areas@ =~= old(self).areas@.skip(done + 1));
                    assert forall|i: int| 0 <= i < kept@.len() implies exists|j: int|
                        0 <= j < done + 1 && remnant_of(
                            #[trigger] kept@[i],
                            old(self).areas@[j],
                        ) by {
                        if i < kpre.len() {
                            let j0 = choose|j: int|
                                0 <= j < done && remnant_of(kpre[i], old(self).areas@[j]);
                            assert(kept@[i] == kpre[i]);
                            assert(remnant_of(kept@[i], old(self).areas@[j0]));
                        } else {
                            assert(kept@[i] == a);
                            assert(a.wf_in(pt, *k));
                            assert(remnant_of(a, old(self).areas@[done]));
                        }
                    }
                    assert forall|j: int|
                        0 <= j < done + 1 && ((#[trigger] old(self).areas@[j]).end_vpn <= lo
                            || hi <= old(self).areas@[j].start_vpn || old(self).areas@[j].start_vpn == old(self).areas@[j].end_vpn) implies exists|i: int|
                            0 <= i < kept@.len() && (#[trigger] kept@[i])
                                == old(self).areas@[j] by {
                        if j < done {
                            let i0 = choose|i: int|
                                0 <= i < kpre.len() && kpre[i] == old(self).areas@[j];
                            assert(kept@[i0] == old(self).areas@[j]);
                        } else {
                            assert(kept@[kpre.len() as int] == a);
                        }
                    }
                    assert forall|v: usize|
                        lo <= v < hi && !covered_by(self.areas@, v) && k.ptes@.contains_key(
                            #[trigger] spec_pte_key(pt, v),
                        ) implies !k.ptes@[spec_pte_key(pt, v)].v by {
                        assert(!a.contains_vpn(v));
                        assert(!covered_by(rpre, v)) by {
                            if covered_by(rpre, v) {
                                let j = choose|j: int|
                                    0 <= j < rpre.len() && (#[trigger] rpre[j]).contains_vpn(v);
                                assert(j != 0);
                                assert(self.areas@[j - 1].contains_vpn(v));
                            }
                        }
                    }
                    done = done + 1;
                }
            } else {
                let ghost gk0 = *k;
                let (l, rest) = a.split(lo);
                let ghost rs = rest.start_vpn;
                let ghost re = rest.end_vpn;
                let (mid, rgt) = rest.split(hi);
                proof {
                    // the pieces of `a`, characterized uniformly
                    assert(rest.start_vpn == if lo > a.start_vpn {
                        lo
                    } else {
                        a.start_vpn
                    });
                    assert(rest.end_vpn == a.end_vpn);
                    assert(a.file is Some ==> rest.file_offset == a.file_offset + (rest.start_vpn
                        - a.start_vpn) * PAGE_SIZE);
                    assert forall|w: u64|
                        rest.start_vpn <= w < rest.end_vpn && a.pages@.contains_key(w) implies
                        #[trigger] rest.pages@.contains_key(w) && rest.pages@[w]
                        == a.pages@[w] by {}
                    lemma_split_half_wf(a, l, pt, *k);
                    assert(mid.start_vpn == rest.start_vpn || mid.start_vpn == mid.end_vpn);
                    assert forall|w: u64|
                        mid.start_vpn <= w < mid.end_vpn && a.pages@.contains_key(w) implies
                        #[trigger] mid.pages@.contains_key(w) && mid.pages@[w]
                        == a.pages@[w] by {
                        assert(rest.pages@.contains_key(w));
                        assert(rest.pages@[w] == a.pages@[w]);
                    }
                    assert(a.file is Some && mid.start_vpn < mid.end_vpn
                        ==> mid.file_offset == a.file_offset + (mid.start_vpn - a.start_vpn)
                        * PAGE_SIZE);
                    lemma_split_half_wf(a, mid, pt, *k);
                    assert forall|w: u64|
                        rgt.start_vpn <= w < rgt.end_vpn && a.pages@.contains_key(w) implies
                        #[trigger] rgt.pages@.contains_key(w) && rgt.pages@[w]
                        == a.pages@[w] by {
                        assert(rest.pages@.contains_key(w));
                        assert(rest.pages@[w] == a.pages@[w]);
                    }
                    assert(a.file is Some && rgt.start_vpn < rgt.end_vpn
                        ==> rgt.file_offset == a.file_offset + (rgt.start_vpn - a.start_vpn)
                        * PAGE_SIZE) by {
                        if a.file is Some && rgt.start_vpn < rgt.end_vpn && rest.start_vpn < hi
                            < rest.end_vpn {
                            assert(rgt.file_offset == rest.file_offset + (hi - rest.start_vpn)
                                * PAGE_SIZE);
                            assert(rest.file_offset + (hi - rest.start_vpn) * PAGE_SIZE
                                == a.file_offset + (hi - a.start_vpn) * PAGE_SIZE)
                                by (nonlinear_arith)
                                requires
                                    rest.file_offset == a.file_offset + (rest.start_vpn
                                        - a.start_vpn) * PAGE_SIZE,
                                    a.start_vpn <= rest.start_vpn,
                            ;
                        }
                    }
                    lemma_split_half_wf(a, rgt, pt, *k);
                    // the removed middle lies inside both `a` and the range
                    assert(lo <= rs);
                    assert(rs < hi);
                    if hi >= re {
                        assert(mid.start_vpn == rs);
                        assert(mid.end_vpn == re);
                    } else {
                        assert(rs < hi < re);
                        assert(mid.start_vpn == rs);
                        assert(mid.end_vpn == hi);
                    }
                    assert(mid.start_vpn >= lo);
                    assert(mid.start_vpn >= a.start_vpn);
                    assert(mid.start_vpn < mid.end_vpn ==> mid.end_vpn <= hi && mid.end_vpn
                        <= a.end_vpn);
                }
                let ghost ms2 = mid.start_vpn;
                let ghost me2 = mid.end_vpn;
                mid.release(k, pt);
                proof {
                    let ghost ms = mid.start_vpn;
                    let ghost me = mid.end_vpn;
                    // keys outside the removed middle are untouched
                    assert forall|key: u64|
                        !(#[trigger] key_in(pt, lo, hi, key)) implies !key_in(pt, ms, me, key) by {
                        if key_in(pt, ms, me, key) {
                            let w = choose|w: usize| ms <= w < me && key == spec_pte_key(pt, w);
                            assert(lo <= w < hi && key == spec_pte_key(pt, w));
                        }
                    }
                    // every surviving area is untouched by the release
                    assert forall|i: int|
                        0 <= i < self.areas@.len() implies (#[trigger] self.areas@[i]).wf_in(
                        pt,
                        *k,
                    ) by {
                        let ai = self.areas@[i];
                        assert(ai == rpre[i + 1]);
                        assert(rpre[0].disjoint(rpre[i + 1]));
                        assert(ai.end_vpn <= ms || me <= ai.start_vpn || ai.start_vpn
                            == ai.end_vpn || me <= ms);
                        lemma_area_preserved(ai, pt, gk0, *k, ms, me);
                        assert(ai.shape_ok());
                    }
                    assert forall|i: int|
                        0 <= i < kpre.len() implies (#[trigger] kpre[i]).wf_in(pt, *k) by {
                        let ai = kpre[i];
                        assert(ai.end_vpn <= lo || hi <= ai.start_vpn || ai.start_vpn
                            == ai.end_vpn);
                        assert(ai.end_vpn <= ms || me <= ai.start_vpn || ai.start_vpn
                            == ai.end_vpn || me <= ms);
                        lemma_area_preserved(ai, pt, gk0, *k, ms, me);
                        assert(ai.shape_ok());
                    }
                    assert(l.end_vpn <= ms || l.start_vpn == l.end_vpn);
                    lemma_area_preserved(l, pt, gk0, *k, ms, me);
                    assert(me <= rgt.start_vpn || rgt.start_vpn == rgt.end_vpn || me <= ms);
                    lemma_area_preserved(rgt, pt, gk0, *k, ms, me);
                    assert(l.wf_in(pt, *k) && rgt.wf_in(pt, *k));
                    // the kernel relative to the loop entry and to the start
                    assert forall|key: u64|
                        !(#[trigger] key_in(pt, lo, hi, key)) implies (k.frames@.contains_key(key)
                        == old(k).frames@.contains_key(key)) && (old(k).frames@.contains_key(key)
                        ==> k.frames@[key] == old(k).frames@[key]) && (k.fmap@.contains_key(key)
                        == old(k).fmap@.contains_key(key)) && (old(k).fmap@.contains_key(key)
                        ==> k.fmap@[key] == old(k).fmap@[key]) && (k.ptes@.contains_key(key)
                        == old(k).ptes@.contains_key(key)) && (old(k).ptes@.contains_key(key)
                        ==> k.ptes@[key] == old(k).ptes@[key]) by {
                        assert(!key_in(pt, ms, me, key));
                        assert(k.frames@.contains_key(key) == gk0.frames@.contains_key(key));
                        assert(k.fmap@.contains_key(key) == gk0.fmap@.contains_key(key));
                        assert(k.ptes@.contains_key(key) == gk0.ptes@.contains_key(key));
                    }
                    // records in the released middle are gone; elsewhere they
                    // are as before
                    assert forall|v: usize|
                        lo <= v < hi && !covered_by(self.areas@, v) implies !k.frames@.contains_key(#[trigger] spec_pte_key(pt, v)) && !k.fmap@.contains_key(
                        spec_pte_key(pt, v),
                    ) by {
                        assert(!covered_by(rpre.skip(1), v));
                        if a.contains_vpn(v) {
                            assert(ms <= v < me);
                        } else {
                            assert(!covered_by(rpre, v)) by {
                                if covered_by(rpre, v) {
                                    let j = choose|j: int|
                                        0 <= j < rpre.len() && (
                                        #[trigger] rpre[j]).contains_vpn(v);
                                    assert(j != 0);
                                    assert(rpre.skip(1)[j - 1].contains_vpn(v));
                                }
                            }
                            assert(!gk0.frames@.contains_key(spec_pte_key(pt, v)));
                            assert(!gk0.fmap@.contains_key(spec_pte_key(pt, v)));
                            assert(!key_in(pt, ms, me, spec_pte_key(pt, v))) by {
                                if key_in(pt, ms, me, spec_pte_key(pt, v)) {
                                    let w = choose|w: usize|
                                        ms <= w < me && spec_pte_key(pt, v) == spec_pte_key(
                                            pt,
                                            w,
                                        );
                                    crate::kernel::lemma_pte_key_inj(pt, w, pt, v);
                                }
                            }
                        }
                    }
                    assert forall|v: usize|
                        v < VPN_LIMIT && !covered_by(kpre, v) && !covered_by(self.areas@, v)
                            && !l.contains_vpn(v) && !rgt.contains_vpn(v) implies !k.frames@.contains_key(#[trigger] spec_pte_key(pt, v)) && !k.fmap@.contains_key(
                        spec_pte_key(pt, v),
                    ) by {
                        if a.contains_vpn(v) {
                            assert(v < lo ==> l.contains_vpn(v));
                            assert(v >= hi && v >= rest.start_vpn ==> rgt.contains_vpn(v) || (
                            rgt.start_vpn == rgt.end_vpn && v >= rest.end_vpn));
                            assert(ms <= v < me);
                        } else {
                            assert(!covered_by(rpre, v)) by {
                                if covered_by(rpre, v) {
                                    let j = choose|j: int|
                                        0 <= j < rpre.len() && (
                                        #[trigger] rpre[j]).contains_vpn(v);
                                    assert(j != 0);
                                    assert(rpre.skip(1)[j - 1].contains_vpn(v));
                                }
                            }
                            assert(!gk0.frames@.contains_key(spec_pte_key(pt, v)));
                            assert(!gk0.fmap@.contains_key(spec_pte_key(pt, v)));
                            assert(!key_in(pt, ms, me, spec_pte_key(pt, v))) by {
                                if key_in(pt, ms, me, spec_pte_key(pt, v)) {
                                    let w = choose|w: usize|
                                        ms <= w < me && spec_pte_key(pt, v) == spec_pte_key(
                                            pt,
                                            w,
                                        );
                                    crate::kernel::lemma_pte_key_inj(pt, w, pt, v);
                                }
                            }
                        }
                    }
                }
                proof {
                    // the halves lie inside `a`, so they inherit all of
                    // `a`'s disjointness
                    assert(a.start_vpn <= l.start_vpn && l.end_vpn <= a.end_vpn || l.start_vpn
                        == l.end_vpn);
                    assert(a.start_vpn <= rgt.start_vpn && rgt.end_vpn <= a.end_vpn
                        || rgt.start_vpn == rgt.end_vpn);
                    assert(l.end_vpn <= lo || l.start_vpn == l.end_vpn);
                    assert(hi <= rgt.start_vpn || rgt.start_vpn == rgt.end_vpn);
                    assert forall|i: int| 0 <= i < kpre.len() implies (
                    #[trigger] kpre[i]).disjoint(l) && kpre[i].disjoint(rgt) by {
                        assert(kpre[i].disjoint(rpre[0]));
                    }
                    assert forall|j: int|
                        0 <= j < self.areas@.len() implies l.disjoint(#[trigger] self.areas@[j])
                        && rgt.disjoint(#[trigger] self.areas@[j]) by {
                        assert(rpre[0].disjoint(rpre[j + 1]));
                        assert(self.areas@[j] == rpre[j + 1]);
                    }
                }
                let ghost kmid = kept@;
                if l.start_vpn < l.end_vpn {
                    kept.push(l);
                    proof {
                        lemma_kept_push(kmid, kept@, self.areas@, l, pt, *k, lo, hi);
                        assert(l.disjoint(rgt));
                    }
                }
                let ghost kmid2 = kept@;
                if rgt.start_vpn < rgt.end_vpn {
                    kept.push(rgt);
                    proof {
                        assert forall|i: int| 0 <= i < kmid2.len() implies (
                        #[trigger] kmid2[i]).disjoint(rgt) by {
                            if i < kmid.len() {
                                assert(kmid[i].disjoint(rgt));
                            } else {
                                assert(kmid2[i] == l);
                            }
                        }
                        lemma_kept_push(kmid2, kept@, self.areas@, rgt, pt, *k, lo, hi);
                    }
                }
                proof {
                    // what the new survivor set covers
                    assert forall|v: usize| #[trigger] covered_by(kept@, v) implies covered_by(
                        kpre,
                        v,
                    ) || l.contains_vpn(v) || rgt.contains_vpn(v) by {
                        let j = choose|j: int|
                            0 <= j < kept@.len() && (#[trigger] kept@[j]).contains_vpn(v);
                        if j < kpre.len() {
                            assert(covered_by(kpre, v));
                        } else {
                            assert(kept@[j] == l || kept@[j] == rgt);
                        }
                    }
                    assert forall|v: usize|
                        (covered_by(kpre, v) || l.contains_vpn(v) || rgt.contains_vpn(v))
                            implies #[trigger] covered_by(kept@, v) by {
                        if covered_by(kpre, v) {
                            let j = choose|j: int|
                                0 <= j < kpre.len() && (#[trigger] kpre[j]).contains_vpn(v);
                            assert(kept@[j].contains_vpn(v));
                        } else if l.contains_vpn(v) {
                            assert(kept@[kpre.len() as int] == l);
                            assert(kept@[kpre.len() as int].contains_vpn(v));
                        } else {
                            assert(kept@[kept@.len() - 1] == rgt);
                            assert(kept@[kept@.len() - 1].contains_vpn(v));
                        }
                    }
                    // coverage outside the range is unchanged
                    assert forall|v: usize|
                        v < VPN_LIMIT && !(lo <= v < hi) implies ((covered_by(kept@, v)
                        || covered_by(self.areas@, v)) <==> old(self).covers(v)) by {
                        assert(covered_by(rpre, v) <==> (a.contains_vpn(v) || covered_by(
                            self.areas@,
                            v,
                        ))) by {
                            if covered_by(rpre, v) {
                                let j = choose|j: int|
                                    0 <= j < rpre.len() && (#[trigger] rpre[j]).contains_vpn(v);
                                if j > 0 {
                                    assert(self.areas@[j - 1].contains_vpn(v));
                                }
                            }
                            if a.contains_vpn(v) {
                                assert(rpre[0].contains_vpn(v));
                            }
                            if covered_by(self.areas@, v) {
                                let j = choose|j: int|
                                    0 <= j < self.areas@.len() && (
                                    #[trigger] self.areas@[j]).contains_vpn(v);
                                assert(rpre[j + 1].contains_vpn(v));
                            }
                        }
                        assert(a.contains_vpn(v) <==> (l.contains_vpn(v) || rgt.contains_vpn(v)))
                            by {
                            if a.contains_vpn(v) {
                                if v < lo {
                                    assert(l.contains_vpn(v));
                                } else {
                                    assert(v >= hi);
                                    assert(v >= rest.start_vpn);
                                    assert(rgt.contains_vpn(v));
                                }
                            }
                        }
                    }
                    // pages with no survivor and no pending area hold no
                    // records
                    assert forall|v: usize|
                        lo <= v < hi && !covered_by(self.areas@, v) implies !k.frames@.contains_key(#[trigger] spec_pte_key(pt, v)) && !k.fmap@.contains_key(
                        spec_pte_key(pt, v),
                    ) by {}
                    assert forall|v: usize|
                        v < VPN_LIMIT && !covered_by(kept@, v) && !covered_by(self.areas@, v)
                            implies !k.frames@.contains_key(#[trigger] spec_pte_key(pt, v))
                        && !k.fmap@.contains_key(spec_pte_key(pt, v)) by {
                        assert(!covered_by(kpre, v) && !l.contains_vpn(v) && !rgt.contains_vpn(
                            v,
                        ));
                    }
                    assert(a == old(self).areas@[done]);
                    assert(self.areas@ =~= old(self).areas@.skip(done + 1));
                    assert(kmid == kpre);
                    assert(l.start_vpn < l.end_vpn ==> remnant_of(l, a));
                    assert(rgt.start_vpn < rgt.end_vpn ==> remnant_of(rgt, a));
                    assert forall|i: int| 0 <= i < kept@.len() implies exists|j: int|
                        0 <= j < done + 1 && remnant_of(
                            #[trigger] kept@[i],
                            old(self).areas@[j],
                        ) by {
                        if i < kpre.len() {
                            let j0 = choose|j: int|
                                0 <= j < done && remnant_of(kpre[i], old(self).areas@[j]);
                            assert(kept@[i] == kpre[i]);
                            assert(remnant_of(kept@[i], old(self).areas@[j0]));
                        } else if i < kmid2.len() {
                            assert(kept@[i] == l);
                            assert(l.start_vpn < l.end_vpn);
                            assert(remnant_of(kept@[i], old(self).areas@[done]));
                        } else {
                            assert(kept@[i] == rgt);
                            assert(rgt.start_vpn < rgt.end_vpn);
                            assert(remnant_of(kept@[i], old(self).areas@[done]));
                        }
                    }
                    assert forall|j: int|
                        0 <= j < done + 1 && ((#[trigger] old(self).areas@[j]).end_vpn <= lo
                            || hi <= old(self).areas@[j].start_vpn || old(self).areas@[j].start_vpn == old(self).areas@[j].end_vpn) implies exists|i: int|
                            0 <= i < kept@.len() && (#[trigger] kept@[i])
                                == old(self).areas@[j] by {
                        if j < done {
                            let i0 = choose|i: int|
                                0 <= i < kpre.len() && kpre[i] == old(self).areas@[j];
                            assert(kept@[i0] == old(self).areas@[j]);
                        } else {
                            assert(old(self).areas@[j] == a);
                            assert(a.end_vpn > lo && hi > a.start_vpn && a.start_vpn
                                != a.end_vpn);
                        }
                    }
                    assert forall|v: usize|
                        lo <= v < hi && a.contains_vpn(v) implies ms2 <= v < me2 by {}
                    assert forall|v: usize|
                        lo <= v < hi && !covered_by(self.areas@, v) && k.ptes@.contains_key(
                            #[trigger] spec_pte_key(pt, v),
                        ) implies !k.ptes@[spec_pte_key(pt, v)].v by {
                        let kv = spec_pte_key(pt, v);
                        if a.contains_vpn(v) {
                            assert(ms2 <= v < me2);
                        } else {
                            assert(!covered_by(rpre, v)) by {
                                if covered_by(rpre, v) {
                                    let j = choose|j: int|
                                        0 <= j < rpre.len() && (
                                        #[trigger] rpre[j]).contains_vpn(v);
                                    assert(j != 0);
                                    assert(self.areas@[j - 1].contains_vpn(v));
                                }
                            }
                            assert(gk0.ptes@.contains_key(kv) ==> !gk0.ptes@[kv].v);
                            if ms2 <= v < me2 {
                            } else {
                                assert(!key_in(pt, ms2, me2, kv)) by {
                                    if key_in(pt, ms2, me2, kv) {
                                        let w = choose|w: usize|
                                            ms2 <= w < me2 && kv == spec_pte_key(pt, w);
                                        crate::kernel::lemma_pte_key_inj(pt, w, pt, v);
                                    }
                                }
                                assert(k.ptes@.contains_key(kv) == gk0.ptes@.contains_key(kv));
                                assert(gk0.ptes@.contains_key(kv) ==> k.ptes@[kv]
                                    == gk0.ptes@[kv]);
                            }
                        }
                    }
                    assert forall|p: u64| #[trigger] k.pool@.contains_key(p) implies old(k).pool@.contains_key(p) && k.pool@[p].bytes@ == old(k).pool@[p].bytes@ by {
                        assert(gk0.pool@.contains_key(p) && k.pool@[p].bytes@
                            == gk0.pool@[p].bytes@);
                    }
                    done = done + 1;
                }
            }
        }
        let ghost drained = self.areas@;
        self.areas = kept;
        proof {
            assert(drained.len() == 0);
            assert forall|v: usize| !(#[trigger] covered_by(drained, v)) by {
                if covered_by(drained, v) {
                    let j = choose|j: int|
                        0 <= j < drained.len() && (#[trigger] drained[j]).contains_vpn(v);
                }
            }
            assert forall|v: usize| lo <= v < hi implies !self.covers(v) && !k.frames@.contains_key(#[trigger] spec_pte_key(pt, v)) && !k.fmap@.contains_key(
                spec_pte_key(pt, v),
            ) by {
                assert(!covered_by(drained, v));
                assert(!covered_by(kept@, v)) by {
                    if covered_by(kept@, v) {
                        let j = choose|j: int|
                            0 <= j < kept@.len() && (#[trigger] kept@[j]).contains_vpn(v);
                    }
                }
                if self.covers(v) {
                    let j = choose|j: int|
                        0 <= j < self.areas@.len() && (#[trigger] self.areas@[j]).contains_vpn(v);
                    assert(kept@[j].contains_vpn(v));
                }
            }
            assert forall|v: usize|
                v < VPN_LIMIT && !(lo <= v < hi) implies #[trigger] self.covers(v) == old(self).covers(v) by {
                assert(!covered_by(drained, v));
                assert((covered_by(kept@, v) || covered_by(drained, v)) <==> old(self).covers(v));
                if covered_by(kept@, v) {
                    let j = choose|j: int|
                        0 <= j < kept@.len() && (#[trigger] kept@[j]).contains_vpn(v);
                    assert(self.areas@[j].contains_vpn(v));
                    assert(self.covers(v));
                }
                if self.covers(v) {
                    let j = choose|j: int|
                        0 <= j < self.areas@.len() && (#[trigger] self.areas@[j]).contains_vpn(v);
                    assert(covered_by(kept@, v));
                }
            }
            assert forall|v: usize|
                v < VPN_LIMIT && !self.covers(v) implies !k.frames@.contains_key(
                #[trigger] spec_pte_key(self.pt, v),
            ) && !k.fmap@.contains_key(spec_pte_key(self.pt, v)) by {
                assert(!covered_by(kept@, v)) by {
                    if covered_by(kept@, v) {
                        let j = choose|j: int|
                            0 <= j < kept@.len() && (#[trigger] kept@[j]).contains_vpn(v);
                        assert(self.areas@[j].contains_vpn(v));
                    }
                }
                assert(!covered_by(drained, v));
                assert(self.pt == pt);
            }
            assert forall|i: int|
                0 <= i < self.areas@.len() implies (#[trigger] self.areas@[i]).wf_in(
                self.pt,
                *k,
            ) by {
                assert(kept@[i].wf_in(pt, *k));
            }
            assert(self.wf_in(*k));
            assert(done == old(self).areas@.len());
            assert forall|v: usize|
                lo <= v < hi && k.ptes@.contains_key(
                    #[trigger] spec_pte_key(pt, v),
                ) implies !k.ptes@[spec_pte_key(pt, v)].v by {
                assert(!covered_by(drained, v));
            }
            assert forall|i: int|
                #![trigger self.areas@[i]]
                0 <= i < self.areas@.len() implies exists|j: int|
                0 <= j < old(self).areas@.len() && remnant_of(
                    self.areas@[i],
                    #[trigger] old(self).areas@[j],
                ) by {
                assert(self.areas@[i] == kept@[i]);
                let j0 = choose|j: int|
                    0 <= j < done && remnant_of(kept@[i], old(self).areas@[j]);
                assert(remnant_of(self.areas@[i], old(self).areas@[j0]));
            }
            assert forall|j: int|
                0 <= j < old(self).areas@.len() && ((#[trigger] old(self).areas@[j]).end_vpn
                    <= lo || hi <= old(self).areas@[j].start_vpn || old(self).areas@[j].start_vpn
                    == old(self).areas@[j].end_vpn) implies exists|i: int|
                    0 <= i < self.areas@.len() && (#[trigger] self.areas@[i])
                        == old(self).areas@[j] by {
                let i0 = choose|i: int| 0 <= i < kept@.len() && kept@[i] == old(self).areas@[j];
                assert(self.areas@[i0] == old(self).areas@[j]);
            }
        }
        0
    }

    /// Handles a page fault: locates the covering area and lets it
    /// resolve the access, or reports that no area covers the address.
    #[verifier::rlimit(100)]
    #[verifier::spinoff_prover]
    pub fn page_fault(&mut self, k: &mut Kernel, fs: &crate::vfs::Fs, f: PageFault) -> (r: isize)
        requires
            old(k).wf(),
            old(self).wf_in(*old(k)),
            fs.wf(),
            forall|i: int|
                0 <= i < old(self).areas@.len() ==> (#[trigger] old(self).areas@[i]).fs_ok(*fs)
                    && !(old(self).areas@[i].map_type is Identity),
            ({
                let key = spec_pte_key(old(self).pt, crate::cfg::spec_vpn_of(f.addr as int) as usize);
                old(k).ptes@.contains_key(key) ==> ((!(f.fault_type is Store)
                    ==> !old(k).ptes@[key].v) && (f.fault_type is Store ==> !(old(k).ptes@[key].v
                    && old(k).ptes@[key].w)))
            }),
            old(k).can_alloc(2),
            old(k).rc_headroom(1),
        ensures
            final(k).wf(),
            final(self).wf_in(*final(k)),
            final(self).pt == old(self).pt,
            final(self).areas@.len() == old(self).areas@.len(),
            final(k).next_pt == old(k).next_pt,
            old(k).next_ppn <= final(k).next_ppn <= old(k).next_ppn + 2,
            r == -1 <==> !old(self).covers(crate::cfg::spec_vpn_of(f.addr as int) as usize),
            r == 0 || r == -1 || r == -2 || r == -3 || r == -4 || r == -5,
            r == 0 ==> final(k).ptes@[spec_pte_key(
                old(self).pt,
                crate::cfg::spec_vpn_of(f.addr as int) as usize,
            )].v && (f.fault_type is Store ==> final(k).ptes@[spec_pte_key(
                old(self).pt,
                crate::cfg::spec_vpn_of(f.addr as int) as usize,
            )].w),
            // each failure code is exactly the covering area's verdict
            forall|i: int|
                0 <= i < old(self).areas@.len() && (#[trigger] old(self).areas@[i]).contains_vpn(
                    crate::cfg::spec_vpn_of(f.addr as int) as usize,
                ) ==> ((r == -2 <==> !old(self).areas@[i].map_perm.u) && (r == -3 <==> old(self).areas@[i].map_perm.u && f.fault_type is Instruction && !old(self).areas@[i].map_perm.x) && (r == -4 <==> old(self).areas@[i].map_perm.u && !(f.fault_type
                    is Instruction && !old(self).areas@[i].map_perm.x) && f.fault_type is Store
                    && !old(self).areas@[i].map_perm.w) && (r == -5 <==> old(self).areas@[i].map_perm.u && !(f.fault_type is Instruction && !old(self).areas@[i].map_perm.x)
                    && !(f.fault_type is Store && !old(self).areas@[i].map_perm.w)
                    && f.fault_type is Load && !old(self).areas@[i].map_perm.r)),
            r != 0 ==> final(k).frames@ == old(k).frames@ && final(k).ptes@ == old(k).ptes@
                && final(k).fmap@ == old(k).fmap@ && final(k).files@ == old(k).files@
                && final(k).pool@ == old(k).pool@ && final(self).areas@ == old(self).areas@,
            // nothing outside the faulted entry changes
            forall|key: u64|
                key != spec_pte_key(old(self).pt, crate::cfg::spec_vpn_of(f.addr as int) as usize)
                    ==> #[trigger] final(k).frames@.contains_key(key) == old(k).frames@.contains_key(key) && (old(k).frames@.contains_key(key) ==> final(k).frames@[key]
                    == old(k).frames@[key]),
            forall|key: u64|
                key != spec_pte_key(old(self).pt, crate::cfg::spec_vpn_of(f.addr as int) as usize)
                    ==> #[trigger] final(k).fmap@.contains_key(key) == old(k).fmap@.contains_key(
                    key,
                ) && (old(k).fmap@.contains_key(key) ==> final(k).fmap@[key] == old(k).fmap@[key]),
            forall|key: u64|
                key != spec_pte_key(old(self).pt, crate::cfg::spec_vpn_of(f.addr as int) as usize)
                    ==> #[trigger] final(k).ptes@.contains_key(key) == old(k).ptes@.contains_key(
                    key,
                ) && (old(k).ptes@.contains_key(key) ==> final(k).ptes@[key] == old(k).ptes@[key]),
            forall|p: u64|
                old(k).pool@.contains_key(p) && final(k).pool@.contains_key(p)
                    ==> #[trigger] final(k).pool@[p].bytes@ == old(k).pool@[p].bytes@,
            // loading a lazy RAM page: one fresh zeroed frame with the
            // area's permission; siblings keep their state
            ({
                let vpn = crate::cfg::spec_vpn_of(f.addr as int) as usize;
                let key = spec_pte_key(old(self).pt, vpn);
                forall|i: int|
                    0 <= i < old(self).areas@.len() && (#[trigger] old(self).areas@[i]).contains_vpn(vpn) && r == 0 && old(k).frames@.contains_key(key)
                        && old(k).frames@[key] is Lazy ==> {
                        let np = old(k).next_ppn;
                        &&& final(k).ptes@[key] == Pte::spec_valid(
                            np,
                            old(self).areas@[i].map_perm,
                        )
                        &&& !old(k).pool@.contains_key(np)
                        &&& final(k).pool@.contains_key(np)
                        &&& final(k).pool@[np].bytes@.len() == PAGE_SIZE
                        &&& (forall|j: int|
                            0 <= j < PAGE_SIZE ==> final(k).pool@[np].bytes@[j] == 0u8)
                        &&& final(k).next_ppn == old(k).next_ppn + 1
                    }
            }),
            // a store on a shared page: the entry maps a frame holding the
            // shared page's old bytes, the other sharer's frame untouched
            ({
                let vpn = crate::cfg::spec_vpn_of(f.addr as int) as usize;
                let key = spec_pte_key(old(self).pt, vpn);
                (r == 0 && f.fault_type is Store && old(k).frames@.contains_key(key)) ==> (old(k).frames@[key] matches FrameRec::Cow(p) ==> {
                    let np = final(k).ptes@[key].ppn;
                    &&& final(k).pool@.contains_key(np)
                    &&& final(k).pool@[np].bytes@ == old(k).pool@[p].bytes@
                    &&& (np != p ==> final(k).pool@.contains_key(p) && final(k).pool@[p].bytes@
                        == old(k).pool@[p].bytes@)
                })
            }),
            // a file-backed page: the mapped frame holds the page's logical
            // content; a private first write owns a fresh copy
            ({
                let vpn = crate::cfg::spec_vpn_of(f.addr as int) as usize;
                let key = spec_pte_key(old(self).pt, vpn);
                forall|i: int|
                    0 <= i < old(self).areas@.len() && (#[trigger] old(self).areas@[i]).contains_vpn(vpn) && r == 0 && old(k).fmap@.contains_key(key) ==> {
                        let np = final(k).ptes@[key].ppn;
                        &&& final(k).pool@.contains_key(np)
                        &&& final(k).pool@[np].bytes@.len() == PAGE_SIZE
                        &&& (forall|j: int|
                            0 <= j < PAGE_SIZE ==> final(k).pool@[np].bytes@[j]
                                == spec_file_page_byte(*old(k), *fs, key, j))
                        &&& (!(f.fault_type is Store) ==> final(k).ptes@[key] == Pte::spec_valid(
                            np,
                            if old(self).areas@[i].map_type is FilePriv {
                                Perm { w: false, ..old(self).areas@[i].map_perm }
                            } else {
                                old(self).areas@[i].map_perm
                            },
                        ))
                        &&& (f.fault_type is Store && old(self).areas@[i].map_type is FilePriv
                            ==> final(k).frames@.contains_key(key) && final(k).frames@[key]
                            is Owned && final(k).ptes@[key] == Pte::spec_valid(
                            np,
                            old(self).areas@[i].map_perm,
                        ))
                        &&& (f.fault_type is Store && old(self).areas@[i].map_type is FileShared
                            ==> final(k).ptes@[key] == Pte::spec_valid(
                            np,
                            old(self).areas@[i].map_perm,
                        ))
                    }
            }),
    {
        let vpn = crate::cfg::vpn_floor(f.addr);
        let pt = self.pt;
        let n = self.areas.len();
        let mut i: usize = 0;
        while i < n
            invariant
                *self == *old(self),
                *k == *old(k),
                old(k).wf(),
                old(self).wf_in(*old(k)),
                fs.wf(),
                forall|j: int|
                    0 <= j < old(self).areas@.len() ==> (#[trigger] old(self).areas@[j]).fs_ok(
                        *fs,
                    ) && !(old(self).areas@[j].map_type is Identity),
                pt == old(self).pt,
                vpn == crate::cfg::spec_vpn_of(f.addr as int),
                vpn < VPN_LIMIT,
                ({
                    let key = spec_pte_key(old(self).pt, vpn);
                    old(k).ptes@.contains_key(key) ==> ((!(f.fault_type is Store)
                        ==> !old(k).ptes@[key].v) && (f.fault_type is Store ==> !(
                    old(k).ptes@[key].v && old(k).ptes@[key].w)))
                }),
                old(k).can_alloc(2),
                old(k).rc_headroom(1),
                n == self.areas@.len(),
                i <= n,
                forall|j: int| 0 <= j < i ==> !(#[trigger] self.areas@[j]).contains_vpn(vpn),
            decreases n - i,
        {
            let hit = {
                let a = &self.areas[i];
                a.start_vpn <= vpn && vpn < a.end_vpn
            };
            if hit {
                proof {
                    assert(self.areas@[i as int].contains_vpn(vpn));
                    assert(old(self).covers(vpn));
                    assert(self.areas@[i as int].wf_in(pt, *old(k)));
                    let key = spec_pte_key(pt, vpn);
                    assert(self.areas@[i as int].pages@.contains_key(vpn as u64));
                    assert(MapArea::page_ok(
                        self.areas@[i as int].pages@[vpn as u64],
                        pt,
                        vpn,
                        self.areas@[i as int],
                        *old(k),
                    ));
                    match self.areas@[i as int].pages@[vpn as u64] {
                        Page::Identity => {
                            assert(false);
                        },
                        Page::Framed(_) => {
                            assert(old(k).ptes@.contains_key(key));
                        },
                        Page::FileShared(_) => {
                            assert(old(k).ptes@.contains_key(key));
                        },
                        Page::FilePriv(_) => {
                            assert(old(k).ptes@.contains_key(key));
                        },
                    }
                }
                let a = &mut self.areas[i];
                let code = a.page_fault(k, fs, pt, f);
                proof {
                    let ai = *a;
                    assert(ai.wf_in(pt, *k));
                    if code != 0 {
                        assert(self.areas@ =~= old(self).areas@);
                    }
                    assert forall|key2: u64|
                        !(#[trigger] key_in(pt, vpn, (vpn + 1) as usize, key2)) implies key2
                        != spec_pte_key(pt, vpn) by {
                        if key2 == spec_pte_key(pt, vpn) {
                            assert(vpn <= vpn < vpn + 1 && key2 == spec_pte_key(pt, vpn));
                            assert(key_in(pt, vpn, (vpn + 1) as usize, key2));
                        }
                    }
                    assert forall|key2: u64|
                        !(#[trigger] key_in(pt, vpn, (vpn + 1) as usize, key2)) implies (
                    k.frames@.contains_key(key2) == old(k).frames@.contains_key(key2)) && (old(k).frames@.contains_key(key2) ==> k.frames@[key2] == old(k).frames@[key2]) && (
                    k.fmap@.contains_key(key2) == old(k).fmap@.contains_key(key2)) && (old(k).fmap@.contains_key(key2) ==> k.fmap@[key2] == old(k).fmap@[key2]) && (
                    k.ptes@.contains_key(key2) == old(k).ptes@.contains_key(key2)) && (old(k).ptes@.contains_key(key2) ==> k.ptes@[key2] == old(k).ptes@[key2]) by {
                        assert(key2 != spec_pte_key(pt, vpn));
                        assert(k.frames@.contains_key(key2) == old(k).frames@.contains_key(key2));
                        assert(k.fmap@.contains_key(key2) == old(k).fmap@.contains_key(key2));
                        assert(k.ptes@.contains_key(key2) == old(k).ptes@.contains_key(key2));
                    }
                    assert forall|j: int|
                        0 <= j < self.areas@.len() implies (#[trigger] self.areas@[j]).wf_in(
                        pt,
                        *k,
                    ) by {
                        if j != i {
                            let aj = old(self).areas@[j];
                            assert(self.areas@[j] == aj);
                            assert(aj.wf_in(pt, *old(k)));
                            assert(aj.disjoint(old(self).areas@[i as int]));
                            lemma_area_preserved(aj, pt, *old(k), *k, vpn, (vpn + 1) as usize);
                        }
                    }
                    assert forall|v: usize|
                        v < VPN_LIMIT && !self.covers(v) implies !k.frames@.contains_key(
                        #[trigger] spec_pte_key(self.pt, v),
                    ) && !k.fmap@.contains_key(spec_pte_key(self.pt, v)) by {
                        assert(!old(self).covers(v)) by {
                            if old(self).covers(v) {
                                let j = choose|j: int|
                                    0 <= j < old(self).areas@.len() && (
                                    #[trigger] old(self).areas@[j]).contains_vpn(v);
                                assert(self.areas@[j].contains_vpn(v));
                            }
                        }
                        assert(v != vpn);
                        crate::kernel::lemma_key_ne(self.pt, v, vpn);
                    }
                }
                return code;
            }
            i = i + 1;
        }
        proof {
            assert(!old(self).covers(vpn)) by {
                if old(self).covers(vpn) {
                    let j = choose|j: int|
                        0 <= j < old(self).areas@.len() && (
                        #[trigger] old(self).areas@[j]).contains_vpn(vpn);
                    assert(false);
                }
            }
        }
        -1
    }

    /// Pro-actively takes ownership of the page at `vpn` before a user
    /// write, returning true only when the page was indeed shared
    /// copy-on-write under a writable area and is now owned.
    #[verifier::rlimit(100)]
    #[verifier::spinoff_prover]
    pub fn cown(&mut self, k: &mut Kernel, vpn: usize) -> (r: bool)
        requires
            old(k).wf(),
            old(self).wf_in(*old(k)),
            vpn < VPN_LIMIT,
            old(k).can_alloc(1),
        ensures
            final(k).wf(),
            final(self).wf_in(*final(k)),
            final(self).pt == old(self).pt,
            final(self).areas@ == old(self).areas@,
            final(k).next_pt == old(k).next_pt,
            !r ==> final(k).frames@ == old(k).frames@ && final(k).ptes@ == old(k).ptes@
                && final(k).pool@ == old(k).pool@ && final(k).files@ == old(k).files@
                && final(k).fmap@ == old(k).fmap@,
            r <==> exists|i: int|
                0 <= i < old(self).areas@.len() && (#[trigger] old(self).areas@[i]).contains_vpn(
                    vpn,
                ) && old(self).areas@[i].map_perm.w && (old(self).areas@[i].pages@[vpn as u64]
                    matches Page::Framed(h) && old(k).frames@[h.key] is Cow),
            r ==> old(k).frames@.contains_key(spec_pte_key(old(self).pt, vpn)) && old(k).frames@[spec_pte_key(old(self).pt, vpn)] is Cow && final(k).frames@[spec_pte_key(
                old(self).pt,
                vpn,
            )] is Owned && final(k).ptes@[spec_pte_key(old(self).pt, vpn)].w,
    {
        let pt = self.pt;
        let n = self.areas.len();
        let mut i: usize = 0;
        while i < n
            invariant
                *self == *old(self),
                *k == *old(k),
                old(k).wf(),
                old(self).wf_in(*old(k)),
                pt == old(self).pt,
                vpn < VPN_LIMIT,
                old(k).can_alloc(1),
                n == self.areas@.len(),
                i <= n,
                forall|j: int| 0 <= j < i ==> !(#[trigger] self.areas@[j]).contains_vpn(vpn),
            decreases n - i,
        {
            let hit = {
                let a = &self.areas[i];
                a.start_vpn <= vpn && vpn < a.end_vpn
            };
            if hit {
                proof {
                    assert(self.areas@[i as int].contains_vpn(vpn));
                    assert(self.areas@[i as int].wf_in(pt, *old(k)));
                    assert(self.areas@[i as int].pages@.contains_key(vpn as u64));
                    assert(MapArea::page_ok(
                        self.areas@[i as int].pages@[vpn as u64],
                        pt,
                        vpn,
                        self.areas@[i as int],
                        *old(k),
                    ));
                }
                let key = pte_key(pt, vpn);
                let a = &self.areas[i];
                if !a.map_perm.w {
                    return false;
                }
                let pg = match a.pages.get(vpn as u64) {
                    Some(pg) => *pg,
                    None => unreached(),
                };
                match pg {
                    Page::Framed(h) => {
                        if h.is_cow(k) {
                            h.cown(k);
                            proof {
                                let ai = self.areas@[i as int];
                                assert(MapArea::page_ok(ai.pages@[vpn as u64], pt, vpn, ai, *k));
                                lemma_area_page_op(ai, pt, *old(k), *k, vpn);
                                assert(ai.wf_in(pt, *k));
                                assert forall|j: int|
                                    0 <= j < self.areas@.len() implies (
                                #[trigger] self.areas@[j]).wf_in(pt, *k) by {
                                    if j != i {
                                        let aj = self.areas@[j];
                                        assert(aj.wf_in(pt, *old(k)));
                                        assert(aj.disjoint(ai));
                                        assert forall|key2: u64|
                                            !(#[trigger] key_in(
                                                pt,
                                                vpn,
                                                (vpn + 1) as usize,
                                                key2,
                                            )) implies key2 != spec_pte_key(pt, vpn) by {
                                            if key2 == spec_pte_key(pt, vpn) {
                                                assert(vpn <= vpn < vpn + 1 && key2
                                                    == spec_pte_key(pt, vpn));
                                                assert(key_in(
                                                    pt,
                                                    vpn,
                                                    (vpn + 1) as usize,
                                                    key2,
                                                ));
                                            }
                                        }
                                        assert forall|key2: u64|
                                            !(#[trigger] key_in(
                                                pt,
                                                vpn,
                                                (vpn + 1) as usize,
                                                key2,
                                            )) implies (k.frames@.contains_key(key2) == old(k).frames@.contains_key(key2)) && (old(k).frames@.contains_key(key2)
                                            ==> k.frames@[key2] == old(k).frames@[key2]) && (
                                        k.fmap@.contains_key(key2) == old(k).fmap@.contains_key(
                                            key2,
                                        )) && (old(k).fmap@.contains_key(key2) ==> k.fmap@[key2]
                                            == old(k).fmap@[key2]) && (k.ptes@.contains_key(key2)
                                            == old(k).ptes@.contains_key(key2)) && (old(k).ptes@.contains_key(key2) ==> k.ptes@[key2] == old(k).ptes@[key2]) by {
                                            assert(key2 != spec_pte_key(pt, vpn));
                                            assert(k.frames@.contains_key(key2) == old(k).frames@.contains_key(key2));
                                            assert(k.fmap@.contains_key(key2) == old(k).fmap@.contains_key(key2));
                                            assert(k.ptes@.contains_key(key2) == old(k).ptes@.contains_key(key2));
                                        }
                                        lemma_area_preserved(
                                            aj,
                                            pt,
                                            *old(k),
                                            *k,
                                            vpn,
                                            (vpn + 1) as usize,
                                        );
                                    }
                                }
                                assert forall|v2: usize|
                                    v2 < VPN_LIMIT && !self.covers(v2) implies !k.frames@.contains_key(#[trigger] spec_pte_key(self.pt, v2))
                                    && !k.fmap@.contains_key(spec_pte_key(self.pt, v2)) by {
                                    assert(v2 != vpn) by {
                                        if v2 == vpn {
                                            assert(self.areas@[i as int].contains_vpn(vpn));
                                        }
                                    }
                                    crate::kernel::lemma_key_ne(self.pt, v2, vpn);
                                }
                            }
                            return true;
                        }
                        return false;
                    },
                    _ => {
                        return false;
                    },
                }
            }
            i = i + 1;
        }
        false
    }

    /// Maps `[start_va, end_va)` as a fresh lazily-backed Framed area with
    /// permission `perm`. Fails with -1 when the range touches a critical
    /// page or an existing area, leaving everything unchanged.
    #[verifier::rlimit(100)]
    #[verifier::spinoff_prover]
    pub fn mmap(&mut self, k: &mut Kernel, start_va: usize, end_va: usize, perm: Perm) -> (r: isize)
        requires
            old(k).wf(),
            old(self).wf_in(*old(k)),
        ensures
            final(k).wf(),
            final(self).wf_in(*final(k)),
            final(self).pt == old(self).pt,
            final(k).next_pt == old(k).next_pt,
            final(k).next_ppn == old(k).next_ppn,
            final(k).pool@ == old(k).pool@,
            final(k).files@ == old(k).files@,
            final(k).files.pairs() == old(k).files.pairs(),
            final(k).fmap@ == old(k).fmap@,
            final(k).fmap.pairs() == old(k).fmap.pairs(),
            ({
                let lo = spec_vpn_of(start_va as int) as usize;
                let hi0 = spec_vpn_up(end_va as int) as usize;
                let hi = if hi0 > lo {
                    hi0
                } else {
                    lo
                };
                &&& (r == -1 <==> (hi <= lo || (lo <= crate::cfg::TRAMPOLINE_VPN < hi) || (lo
                    <= crate::cfg::TRAP_CONTEXT_VPN < hi) || old(self).spec_overlaps(lo, hi)))
                &&& (r == -1 ==> final(self).areas@ == old(self).areas@ && final(k).frames@ == old(k).frames@ && final(k).ptes@ == old(k).ptes@)
                &&& (r == 0 ==> {
                    let a = final(self).areas@.last();
                    &&& final(self).areas@ == old(self).areas@.push(a)
                    &&& a.start_vpn == lo
                    &&& a.end_vpn == hi
                    &&& a.map_type is Framed
                    &&& a.map_perm == perm
                    &&& a.file is None
                    &&& (forall|v: usize|
                        lo <= v < hi ==> final(k).frames@.contains_key(
                            #[trigger] spec_pte_key(old(self).pt, v),
                        ) && final(k).frames@[spec_pte_key(old(self).pt, v)] == FrameRec::Lazy
                            && final(k).ptes@.contains_key(spec_pte_key(old(self).pt, v))
                            && final(k).ptes@[spec_pte_key(old(self).pt, v)]
                            == Pte::spec_invalid())
                    &&& (forall|key: u64|
                        !key_in(old(self).pt, lo, hi, key) ==> #[trigger] final(k).frames@.contains_key(key) == old(k).frames@.contains_key(key))
                    &&& (forall|key: u64|
                        !key_in(old(self).pt, lo, hi, key) && old(k).frames@.contains_key(key)
                            ==> #[trigger] final(k).frames@[key] == old(k).frames@[key])
                    &&& (forall|key: u64|
                        !key_in(old(self).pt, lo, hi, key) ==> #[trigger] final(k).ptes@.contains_key(key) == old(k).ptes@.contains_key(key))
                    &&& (forall|key: u64|
                        !key_in(old(self).pt, lo, hi, key) && old(k).ptes@.contains_key(key)
                            ==> #[trigger] final(k).ptes@[key] == old(k).ptes@[key])
                })
                &&& (r == 0 || r == -1)
            }),
    {
        let lo = crate::cfg::vpn_floor(start_va);
        let hi0 = crate::cfg::vpn_ceil(end_va);
        let hi = if hi0 > lo {
            hi0
        } else {
            lo
        };
        if hi <= lo {
            return -1;
        }
        if lo <= crate::cfg::TRAMPOLINE_VPN && crate::cfg::TRAMPOLINE_VPN < hi {
            return -1;
        }
        if lo <= crate::cfg::TRAP_CONTEXT_VPN && crate::cfg::TRAP_CONTEXT_VPN < hi {
            return -1;
        }
        proof {
            assert forall|j: int|
                0 <= j < self.areas@.len() implies (#[trigger] self.areas@[j]).start_vpn
                <= self.areas@[j].end_vpn by {
                assert(self.areas@[j].wf_in(self.pt, *k));
            }
        }
        if self.range_overlaps(lo, hi) {
            return -1;
        }
        proof {
            assert forall|v: usize| lo <= v < hi implies !old(k).frames@.contains_key(
                #[trigger] spec_pte_key(self.pt, v),
            ) && !old(k).fmap@.contains_key(spec_pte_key(self.pt, v)) by {
                assert(!self.covers(v));
            }
        }
        let a = MapArea::map_framed(k, self.pt, lo, hi, perm);
        self.areas.push(a);
        proof {
            let s1 = *self;
            let n = s1.areas@.len() - 1;
            assert forall|i: int| 0 <= i < s1.areas@.len() implies (#[trigger] s1.areas@[i]).wf_in(
                s1.pt,
                *k,
            ) by {
                if i < n {
                    let ai = old(self).areas@[i];
                    assert(ai.wf_in(s1.pt, *old(k)));
                    assert(ai.end_vpn <= lo || hi <= ai.start_vpn || ai.start_vpn == ai.end_vpn
                        || hi <= lo) by {
                        if !(ai.end_vpn <= lo || hi <= ai.start_vpn) && ai.start_vpn < ai.end_vpn && lo < hi {
                            let w = if ai.start_vpn > lo {
                                ai.start_vpn
                            } else {
                                lo
                            };
                            assert(ai.contains_vpn(w) && lo <= w < hi);
                            assert(old(self).covers(w)) by {
                                assert(0 <= i < old(self).areas@.len() && (
                                #[trigger] old(self).areas@[i]).contains_vpn(w));
                            }
                        }
                    }
                    lemma_area_preserved(ai, s1.pt, *old(k), *k, lo, hi);
                    assert(ai.shape_ok());
                    assert(ai.wf_in(s1.pt, *k));
                }
            }
            assert forall|i: int, j: int| 0 <= i < j < s1.areas@.len() implies (
            #[trigger] s1.areas@[i]).disjoint(#[trigger] s1.areas@[j]) by {
                if j == n && i < n {
                    let ai = old(self).areas@[i];
                    if !(ai.end_vpn <= lo || hi <= ai.start_vpn) && ai.start_vpn < ai.end_vpn && lo < hi {
                        let w = if ai.start_vpn > lo {
                            ai.start_vpn
                        } else {
                            lo
                        };
                        assert(ai.contains_vpn(w) && lo <= w < hi);
                        assert(old(self).covers(w)) by {
                            assert(0 <= i < old(self).areas@.len() && (
                            #[trigger] old(self).areas@[i]).contains_vpn(w));
                        }
                        assert(old(self).spec_overlaps(lo, hi)) by {
                            assert(0 <= i < old(self).areas@.len() && (#[trigger] old(self).areas@[i]).start_vpn < hi && lo < old(self).areas@[i].end_vpn && old(self).areas@[i].start_vpn < old(self).areas@[i].end_vpn);
                        }
                        assert(false);
                    }
                } else if j < n {
                    assert(old(self).areas@[i].disjoint(old(self).areas@[j]));
                }
            }
            assert forall|v: usize|
                v < VPN_LIMIT && !s1.covers(v) implies !k.frames@.contains_key(
                #[trigger] spec_pte_key(s1.pt, v),
            ) && !k.fmap@.contains_key(spec_pte_key(s1.pt, v)) by {
                assert(!(lo <= v < hi)) by {
                    if lo <= v < hi {
                        assert(s1.areas@[n as int].contains_vpn(v));
                    }
                }
                assert(!old(self).covers(v)) by {
                    if old(self).covers(v) {
                        let j = choose|j: int|
                            0 <= j < old(self).areas@.len() && (
                            #[trigger] old(self).areas@[j]).contains_vpn(v);
                        assert(s1.areas@[j].contains_vpn(v));
                    }
                }
                assert(!key_in(s1.pt, lo, hi, spec_pte_key(s1.pt, v))) by {
                    if key_in(s1.pt, lo, hi, spec_pte_key(s1.pt, v)) {
                        let w = choose|w: usize|
                            lo <= w < hi && spec_pte_key(s1.pt, v) == spec_pte_key(s1.pt, w);
                        crate::kernel::lemma_pte_key_inj(s1.pt, w, s1.pt, v);
                        assert(w == v);
                    }
                }
            }
        }
        0
    }
}

/// Distinct pages of one file-backed area map distinct file positions.
pub proof fn lemma_page_pos_inj(a: MapArea, w: usize, v: usize)
    requires
        a.file_ok(),
        a.map_type is FileShared || a.map_type is FilePriv,
        a.start_vpn <= w < a.end_vpn,
        a.start_vpn <= v < a.end_vpn,
        w != v,
    ensures
        a.spec_page_pos(w) != a.spec_page_pos(v),
{
    let ow = a.file_offset + (w - a.start_vpn) * PAGE_SIZE;
    let ov = a.file_offset + (v - a.start_vpn) * PAGE_SIZE;
    assert(ow <= usize::MAX && ov <= usize::MAX && ow % (PAGE_SIZE as int) == 0 && ov % (
    PAGE_SIZE as int) == 0 && ow / (PAGE_SIZE as int) < 0x100000000 && ov / (PAGE_SIZE as int)
        < 0x100000000 && ow != ov) by (nonlinear_arith)
        requires
            a.file_offset % PAGE_SIZE == 0,
            a.file_offset / PAGE_SIZE + (a.end_vpn - a.start_vpn) < 0x100000000,
            a.file_offset + (a.end_vpn - a.start_vpn) * PAGE_SIZE <= usize::MAX,
            a.start_vpn <= w < a.end_vpn,
            a.start_vpn <= v < a.end_vpn,
            w != v,
            PAGE_SIZE == 4096,
            ow == a.file_offset + (w - a.start_vpn) * PAGE_SIZE,
            ov == a.file_offset + (v - a.start_vpn) * PAGE_SIZE,
    ;
    if a.spec_page_pos(w) == a.spec_page_pos(v) {
        lemma_pos_key_inj(a.file.unwrap().id, ow as usize, a.file.unwrap().id, ov as usize);
    }
}

/// In a well-formed file-backed area, the position record of page `v` is
/// keyed by that page's position and is present in the file tracker.
pub proof fn lemma_area_page_pos(a: MapArea, pt: u64, k: Kernel, v: usize)
    requires
        k.wf(),
        a.wf_in(pt, k),
        a.map_type is FileShared || (a.map_type is FilePriv && !(a.pages@[v as u64] is Framed)),
        a.start_vpn <= v < a.end_vpn,
    ensures
        k.fmap@.contains_key(spec_pte_key(pt, v)),
        k.fmap@[spec_pte_key(pt, v)] == a.spec_page_pos(v),
        k.files@.contains_key(a.spec_page_pos(v)),
        k.files@[a.spec_page_pos(v)].inode == a.file.unwrap().id,
        k.files@[a.spec_page_pos(v)].offset == a.file_offset + (v - a.start_vpn) * PAGE_SIZE,
{
    let key = spec_pte_key(pt, v);
    assert(a.pages@.contains_key(v as u64));
    let pg = a.pages@[v as u64];
    assert(MapArea::page_ok(pg, pt, v, a, k));
    assert((v - a.start_vpn) * PAGE_SIZE <= (a.end_vpn - a.start_vpn) * PAGE_SIZE) by (nonlinear_arith)
        requires
            a.start_vpn <= v < a.end_vpn,
    ;
    match pg {
        Page::Identity => {
            assert(false);
        },
        Page::Framed(_) => {
            assert(false);
        },
        Page::FileShared(h) => {
            let pos = k.fmap@[key];
            assert(k.files@.contains_key(pos));
            let m = k.files@[pos];
            assert(pos == spec_pos_key(m.inode, m.offset));
        },
        Page::FilePriv(h) => {
            let pos = k.fmap@[key];
            assert(k.files@.contains_key(pos));
            let m = k.files@[pos];
            assert(pos == spec_pos_key(m.inode, m.offset));
        },
    }
}

/// No record and no entry exists yet for a not-yet-handed-out page table.
pub proof fn lemma_fresh_pt_key(k: Kernel, pt: u64, v: usize)
    requires
        k.wf(),
        pt >= k.next_pt,
        pt < crate::kernel::PT_MAX,
        v < VPN_LIMIT,
    ensures
        !k.ptes@.contains_key(spec_pte_key(pt, v)),
        !k.frames@.contains_key(spec_pte_key(pt, v)),
        !k.fmap@.contains_key(spec_pte_key(pt, v)),
{
    assert(spec_pte_key(pt, v) >= k.next_pt * (VPN_LIMIT as u64)) by (nonlinear_arith)
        requires
            pt >= k.next_pt,
            pt < 0x1000000000u64,
            v < 0x8000000usize,
            spec_pte_key(pt, v) == pt * 0x8000000 + v,
    ;
    if k.frames@.contains_key(spec_pte_key(pt, v)) {
        assert(k.ptes@.contains_key(spec_pte_key(pt, v)));
    }
    if k.fmap@.contains_key(spec_pte_key(pt, v)) {
        assert(k.ptes@.contains_key(spec_pte_key(pt, v)));
    }
}

/// A page key of an allocated table is below the allocator's bound.
pub proof fn lemma_key_bound(pt: u64, vpn: usize, next_pt: u64)
    requires
        pt < next_pt,
        next_pt <= crate::kernel::PT_MAX,
        vpn < VPN_LIMIT,
    ensures
        spec_pte_key(pt, vpn) < next_pt * (VPN_LIMIT as u64),
{
    assert(pt * 0x8000000 + vpn < next_pt * 0x8000000) by (nonlinear_arith)
        requires
            pt < next_pt,
            next_pt <= 0x1000000000u64,
            vpn < 0x8000000usize,
    ;
}

} // verus!
