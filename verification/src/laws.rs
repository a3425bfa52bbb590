//! The system-wide laws: statements that tie the address-space layer and
//! the ownership trackers together, proved from the public contracts and
//! invariants alone.

use vstd::prelude::*;
use crate::cfg::{PAGE_SIZE, VPN_LIMIT};
use crate::kernel::{rec_frame, spec_pte_key, FrameRec, Kernel, MFile};
use crate::memory_set::{key_in, MapArea, MemorySet, Page};
use crate::vfs::Fs;

verus! {

/// Area disjointness: no two map areas of one address space share a
/// virtual page.
pub proof fn lemma_area_disjointness(ms: MemorySet, k: Kernel, i: int, j: int, v: usize)
    requires
        ms.wf_in(k),
        0 <= i < ms.areas@.len(),
        0 <= j < ms.areas@.len(),
        i != j,
        ms.areas@[i].contains_vpn(v),
    ensures
        !ms.areas@[j].contains_vpn(v),
{
    if i < j {
        assert(ms.areas@[i].disjoint(ms.areas@[j]));
    } else {
        assert(ms.areas@[j].disjoint(ms.areas@[i]));
    }
}

/// Record coverage: every page of a tracked area has exactly one record,
/// in the tracker its policy names, and a page that is not yet backed
/// keeps its entry invalid.
pub proof fn lemma_record_coverage(ms: MemorySet, k: Kernel, i: int, v: usize)
    requires
        k.wf(),
        ms.wf_in(k),
        0 <= i < ms.areas@.len(),
        ms.areas@[i].contains_vpn(v),
    ensures
        ({
            let key = spec_pte_key(ms.pt, v);
            let a = ms.areas@[i];
            match a.pages@[v as u64] {
                Page::Identity => !k.frames@.contains_key(key) && !k.fmap@.contains_key(key),
                Page::Framed(_) => k.frames@.contains_key(key) && !k.fmap@.contains_key(key)
                    && (k.frames@[key] is Lazy ==> !k.ptes@[key].v),
                Page::FileShared(_) => k.fmap@.contains_key(key) && !k.frames@.contains_key(key)
                    && (k.files@[k.fmap@[key]].resident is None ==> !k.ptes@[key].v),
                Page::FilePriv(_) => k.fmap@.contains_key(key) && !k.frames@.contains_key(key)
                    && (k.files@[k.fmap@[key]].resident is None ==> !k.ptes@[key].v),
            }
        }),
{
    let a = ms.areas@[i];
    let key = spec_pte_key(ms.pt, v);
    assert(a.wf_in(ms.pt, k));
    assert(a.pages@.contains_key(v as u64));
    assert(MapArea::page_ok(a.pages@[v as u64], ms.pt, v, a, k));
    match a.pages@[v as u64] {
        Page::Identity => {},
        Page::Framed(_) => {},
        Page::FileShared(_) => {
            if k.ptes@[key].v {
                assert(k.files@[k.fmap@[key]].resident == Some(k.ptes@[key].ppn));
            }
        },
        Page::FilePriv(_) => {
            if k.ptes@[key].v {
                assert(k.files@[k.fmap@[key]].resident == Some(k.ptes@[key].ppn));
            }
        },
    }
}

/// Copy-on-write consistency: a sharing record keeps the write bit off,
/// and an owning record's frame is referenced by no other record.
pub proof fn lemma_cow_consistency(k: Kernel, key1: u64, key2: u64)
    requires
        k.wf(),
        k.frames@.contains_key(key1),
        k.frames@.contains_key(key2),
        key1 != key2,
    ensures
        k.frames@[key1] is Cow ==> !k.ptes@[key1].w,
        k.frames@[key1] is Owned ==> rec_frame(k.frames@[key2]) != rec_frame(k.frames@[key1]),
{
    if k.frames@[key1] is Owned {
        let p = rec_frame(k.frames@[key1]).unwrap();
        assert(k.pool@.contains_key(p));
        assert(k.pool@[p].rc == 1);
        crate::mframe::lemma_sole_ref(k, key1, p);
    }
}

/// Fork parentage at the page level: two entries that share one page
/// copy-on-write map the same frame, so reading either returns identical
/// bytes until one of them writes.
pub proof fn lemma_cow_share_reads(k: Kernel, key1: u64, key2: u64, p: u64, i: int)
    requires
        k.wf(),
        k.frames@.contains_key(key1),
        k.frames@.contains_key(key2),
        k.frames@[key1] == FrameRec::Cow(p),
        k.frames@[key2] == FrameRec::Cow(p),
        0 <= i < PAGE_SIZE,
    ensures
        k.ptes@[key1].ppn == k.ptes@[key2].ppn,
        k.pool@[k.ptes@[key1].ppn].bytes@[i] == k.pool@[k.ptes@[key2].ppn].bytes@[i],
{
    assert(k.ptes@[key1].ppn == p);
    assert(k.ptes@[key2].ppn == p);
}

/// The copy-on-write law: after one sharer takes ownership of a shared
/// page and writes a byte into its private copy, the frame the other
/// sharer still maps holds its old bytes unchanged.
///
/// `k0` is the state with both entries sharing frame `p` with other
/// holders left; `k1` is `k0` after taking ownership at `key1`, which
/// copied the page into the fresh frame `np`; `k2` is `k1` after writing
/// byte `b` at offset `i` of `np`.
pub proof fn lemma_cow_write_isolation(
    k0: Kernel,
    k1: Kernel,
    k2: Kernel,
    key1: u64,
    key2: u64,
    p: u64,
    np: u64,
    i: int,
    b: u8,
)
    requires
        k0.wf(),
        k0.frames@.contains_key(key1),
        k0.frames@.contains_key(key2),
        key1 != key2,
        k0.frames@[key1] == FrameRec::Cow(p),
        k0.frames@[key2] == FrameRec::Cow(p),
        // taking ownership at key1 installed the fresh copy np
        !k0.pool@.contains_key(np),
        k1.frames@ == k0.frames@.insert(key1, FrameRec::Owned(np)),
        k1.ptes@ == k0.ptes@.insert(key1, k2.ptes@[key1]),
        k1.pool@ == k0.pool@.insert(p, k1.pool@[p]).insert(np, k1.pool@[np]),
        k1.pool@[p].bytes@ == k0.pool@[p].bytes@,
        k1.pool@[np].bytes@ == k0.pool@[p].bytes@,
        // the write touched only np
        k2.pool@ == k1.pool@.insert(np, k2.pool@[np]),
        k2.pool@[np].bytes@ == k1.pool@[np].bytes@.update(i, b),
        k2.frames@ == k1.frames@,
        k2.ptes@ == k1.ptes@,
        0 <= i < PAGE_SIZE,
    ensures
        // the other sharer still maps the first frame with its old bytes
        k2.frames@[key2] == FrameRec::Cow(p),
        k2.ptes@[key2] == k0.ptes@[key2],
        k2.pool@[p].bytes@ == k0.pool@[p].bytes@,
        // the writer sees its write in its own frame
        k2.frames@[key1] == FrameRec::Owned(np),
        k2.pool@[np].bytes@ == k0.pool@[p].bytes@.update(i, b),
        np != p,
{
    assert(k0.pool@.contains_key(p));
}

/// The split/merge round trip: cutting an area strictly inside its range
/// and merging the halves back restores the area — its policy, its
/// permission, its range, its file offset, and every per-page record.
///
/// `l` and `rgt` stand for what `split` returns at `at`, and `m` for what
/// `merge` returns on them, each described by its contract.
pub proof fn lemma_split_merge_round_trip(
    a: MapArea,
    l: MapArea,
    rgt: MapArea,
    m: MapArea,
    at: usize,
)
    requires
        a.shape_ok(),
        a.start_vpn < at < a.end_vpn,
        forall|w: u64|
            a.start_vpn <= w < a.end_vpn ==> #[trigger] a.pages@.contains_key(w),
        // what split's contract says of the halves
        l.map_type == a.map_type && rgt.map_type == a.map_type,
        l.map_perm == a.map_perm && rgt.map_perm == a.map_perm,
        l.file == a.file && rgt.file == a.file,
        l.shape_ok() && rgt.shape_ok(),
        l.start_vpn == a.start_vpn && l.end_vpn == at,
        rgt.start_vpn == at && rgt.end_vpn == a.end_vpn,
        l.file_offset == a.file_offset,
        forall|w: u64|
            a.start_vpn <= w < at && a.pages@.contains_key(w) ==> #[trigger] l.pages@.contains_key(
                w,
            ),
        forall|w: u64|
            a.start_vpn <= w < at && a.pages@.contains_key(w) && l.pages@.contains_key(w)
                ==> #[trigger] l.pages@[w] == a.pages@[w],
        forall|w: u64|
            at <= w < a.end_vpn && a.pages@.contains_key(w) ==> #[trigger] rgt.pages@.contains_key(
                w,
            ),
        forall|w: u64|
            at <= w < a.end_vpn && a.pages@.contains_key(w) && rgt.pages@.contains_key(w)
                ==> #[trigger] rgt.pages@[w] == a.pages@[w],
        // what merge's contract says of the whole
        m.start_vpn == l.start_vpn && m.end_vpn == rgt.end_vpn,
        m.map_type == l.map_type && m.map_perm == l.map_perm,
        m.file == l.file && m.file_offset == l.file_offset,
        forall|w: u64|
            l.start_vpn <= w < l.end_vpn && l.pages@.contains_key(w) ==> #[trigger] m.pages@.contains_key(w),
        forall|w: u64|
            l.start_vpn <= w < l.end_vpn && l.pages@.contains_key(w) && m.pages@.contains_key(w)
                ==> #[trigger] m.pages@[w] == l.pages@[w],
        forall|w: u64|
            rgt.start_vpn <= w < rgt.end_vpn && rgt.pages@.contains_key(w) ==> #[trigger] m.pages@.contains_key(w),
        forall|w: u64|
            rgt.start_vpn <= w < rgt.end_vpn && rgt.pages@.contains_key(w)
                && m.pages@.contains_key(w) ==> #[trigger] m.pages@[w] == rgt.pages@[w],
        forall|w: u64|
            #[trigger] l.pages@.contains_key(w) ==> a.pages@.contains_key(w) && w < at,
        forall|w: u64|
            #[trigger] rgt.pages@.contains_key(w) ==> a.pages@.contains_key(w) && at <= w,
        forall|w: u64|
            #[trigger] m.pages@.contains_key(w) ==> l.pages@.contains_key(w)
                || rgt.pages@.contains_key(w),
    ensures
        m.start_vpn == a.start_vpn,
        m.end_vpn == a.end_vpn,
        m.map_type == a.map_type,
        m.map_perm == a.map_perm,
        m.file == a.file,
        m.file_offset == a.file_offset,
        forall|w: u64|
            a.start_vpn <= w < a.end_vpn ==> #[trigger] m.pages@.contains_key(w) && m.pages@[w]
                == a.pages@[w],
        forall|w: u64| #[trigger] m.pages@.contains_key(w) <==> a.pages@.contains_key(w),
{
    assert forall|w: u64| #[trigger] m.pages@.contains_key(w) implies a.pages@.contains_key(
        w,
    ) by {
        if l.pages@.contains_key(w) {
        } else {
            assert(rgt.pages@.contains_key(w));
        }
    }
    assert forall|w: u64| #[trigger] a.pages@.contains_key(w) implies m.pages@.contains_key(
        w,
    ) by {
        assert(a.shape_ok());
        assert(a.start_vpn <= w < a.end_vpn);
    }
    assert forall|w: u64|
        a.start_vpn <= w < a.end_vpn implies #[trigger] m.pages@.contains_key(w) && m.pages@[w]
        == a.pages@[w] by {
        assert(a.pages@.contains_key(w));
        if w < at {
            assert(l.pages@.contains_key(w));
            assert(l.pages@[w] == a.pages@[w]);
            assert(m.pages@.contains_key(w));
            assert(m.pages@[w] == l.pages@[w]);
        } else {
            assert(rgt.pages@.contains_key(w));
            assert(rgt.pages@[w] == a.pages@[w]);
            assert(m.pages@.contains_key(w));
            assert(m.pages@[w] == rgt.pages@[w]);
        }
    }
}

/// Mapping a range and then unmapping the same range returns the address
/// space to its prior state: page coverage and the kernel's ownership
/// records are exactly what they were. Page-table slots created along the
/// way may remain as invalidated entries; the property ignores such
/// internal allocator state. The hypotheses are what a successful `mmap`
/// of `[lo, hi)` (producing `ms1`, `k1` and the pushed area `a`) and a
/// successful `munmap` of the same range (producing `ms2`, `k2`) ensure.
pub proof fn lemma_mmap_munmap_round_trip(
    ms0: MemorySet,
    ms1: MemorySet,
    ms2: MemorySet,
    k0: Kernel,
    k1: Kernel,
    k2: Kernel,
    lo: usize,
    hi: usize,
    a: MapArea,
)
    requires
        k0.wf(),
        ms0.wf_in(k0),
        hi <= VPN_LIMIT,
        !ms0.spec_overlaps(lo, hi),
        ms1.pt == ms0.pt,
        ms2.pt == ms0.pt,
        ms1.areas@ == ms0.areas@.push(a),
        a.start_vpn == lo,
        a.end_vpn == hi,
        forall|key: u64|
            !key_in(ms0.pt, lo, hi, key) ==> #[trigger] k1.frames@.contains_key(key)
                == k0.frames@.contains_key(key),
        forall|key: u64|
            !key_in(ms0.pt, lo, hi, key) && k0.frames@.contains_key(key)
                ==> #[trigger] k1.frames@[key] == k0.frames@[key],
        k1.fmap@ == k0.fmap@,
        forall|v: usize|
            lo <= v < hi ==> !ms2.covers(v) && !k2.frames@.contains_key(
                #[trigger] spec_pte_key(ms0.pt, v),
            ) && !k2.fmap@.contains_key(spec_pte_key(ms0.pt, v)),
        forall|v: usize|
            v < VPN_LIMIT && !(lo <= v < hi) ==> #[trigger] ms2.covers(v) == ms1.covers(v),
        forall|key: u64|
            !key_in(ms0.pt, lo, hi, key) ==> #[trigger] k2.frames@.contains_key(key)
                == k1.frames@.contains_key(key) && (k1.frames@.contains_key(key)
                ==> k2.frames@[key] == k1.frames@[key]),
        forall|key: u64|
            !key_in(ms0.pt, lo, hi, key) ==> #[trigger] k2.fmap@.contains_key(key)
                == k1.fmap@.contains_key(key) && (k1.fmap@.contains_key(key) ==> k2.fmap@[key]
                == k1.fmap@[key]),
    ensures
        forall|v: usize| v < VPN_LIMIT ==> #[trigger] ms2.covers(v) == ms0.covers(v),
        forall|key: u64|
            #[trigger] k2.frames@.contains_key(key) == k0.frames@.contains_key(key) && (
            k0.frames@.contains_key(key) ==> k2.frames@[key] == k0.frames@[key]),
        forall|key: u64|
            #[trigger] k2.fmap@.contains_key(key) == k0.fmap@.contains_key(key) && (
            k0.fmap@.contains_key(key) ==> k2.fmap@[key] == k0.fmap@[key]),
{
    assert forall|v: usize| v < VPN_LIMIT implies #[trigger] ms2.covers(v) == ms0.covers(v) by {
        if lo <= v < hi {
            let key0 = spec_pte_key(ms0.pt, v);
            assert(!ms2.covers(v) && !k2.frames@.contains_key(key0));
            assert(!ms0.covers(v)) by {
                if ms0.covers(v) {
                    let i = choose|i: int|
                        0 <= i < ms0.areas@.len() && (#[trigger] ms0.areas@[i]).contains_vpn(v);
                    assert(ms0.areas@[i].start_vpn < hi && lo < ms0.areas@[i].end_vpn
                        && ms0.areas@[i].start_vpn < ms0.areas@[i].end_vpn);
                    assert(ms0.spec_overlaps(lo, hi));
                }
            }
        } else {
            assert(ms2.covers(v) == ms1.covers(v));
            assert(ms1.covers(v) == ms0.covers(v)) by {
                if ms1.covers(v) {
                    let i = choose|i: int|
                        0 <= i < ms1.areas@.len() && (#[trigger] ms1.areas@[i]).contains_vpn(v);
                    if i < ms0.areas@.len() {
                        assert(ms0.areas@[i].contains_vpn(v));
                    } else {
                        assert(ms1.areas@[i] == a);
                    }
                }
                if ms0.covers(v) {
                    let i = choose|i: int|
                        0 <= i < ms0.areas@.len() && (#[trigger] ms0.areas@[i]).contains_vpn(v);
                    assert(ms1.areas@[i].contains_vpn(v));
                }
            }
        }
    }
    assert forall|key: u64|
        #[trigger] k2.frames@.contains_key(key) == k0.frames@.contains_key(key) && (
    k0.frames@.contains_key(key) ==> k2.frames@[key] == k0.frames@[key]) by {
        if key_in(ms0.pt, lo, hi, key) {
            let v = choose|v: usize| lo <= v < hi && key == #[trigger] spec_pte_key(ms0.pt, v);
            assert(!k2.frames@.contains_key(spec_pte_key(ms0.pt, v)));
            assert(ms2.covers(v) == ms0.covers(v));
            assert(!ms0.covers(v));
            assert(!k0.frames@.contains_key(spec_pte_key(ms0.pt, v)));
        }
    }
    assert forall|key: u64|
        #[trigger] k2.fmap@.contains_key(key) == k0.fmap@.contains_key(key) && (
    k0.fmap@.contains_key(key) ==> k2.fmap@[key] == k0.fmap@[key]) by {
        if key_in(ms0.pt, lo, hi, key) {
            let v = choose|v: usize| lo <= v < hi && key == #[trigger] spec_pte_key(ms0.pt, v);
            assert(!k2.fmap@.contains_key(spec_pte_key(ms0.pt, v)));
            assert(ms2.covers(v) == ms0.covers(v));
            assert(!ms0.covers(v));
            assert(!k0.fmap@.contains_key(spec_pte_key(ms0.pt, v)));
        }
    }
}

/// Eviction sync, write-back half: once a file-backed area is released,
/// the position records it held lose their last sharer, and reclaiming
/// such a record writes the resident page's bytes back to the backing
/// inode at its offset.
pub proof fn lemma_eviction_sync(
    k0: Kernel,
    fs0: Fs,
    k1: Kernel,
    fs1: Fs,
    pos: u64,
    p: u64,
    i: int,
)
    requires
        k0.wf(),
        k0.files@.contains_key(pos),
        k0.files@[pos].rc == 0,
        k0.files@[pos].resident == Some(p),
        k0.lone_dirty(pos),
        k0.sync_outcome(fs0, k1, fs1, pos),
        0 <= i < PAGE_SIZE,
    ensures
        fs1.inode(k0.files@[pos].inode).data@[k0.files@[pos].offset + i] == k0.pool@[p].bytes@[i],
        !k1.files@.contains_key(pos),
        !k1.pool@.contains_key(p),
{
    assert(k0.pool@.contains_key(p));
}

} // verus!
