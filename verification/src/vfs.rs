//! The in-memory inode layer over the block-structured disk. An inode is a
//! file holding bytes or a directory holding fixed-size entries; data
//! blocks are drawn from and returned to a free pool, and the link count
//! stored with each inode is the sole basis for reclamation.

use vstd::prelude::*;
use vstd::pervasive::unreached;
use crate::cfg::{BLOCK_SZ, DIRENT_SZ, NAME_LEN};
use crate::kvmap::KvMap;

verus! {

#[derive(Clone, Copy, PartialEq, Eq, Structural, Debug)]
pub enum InodeKind {
    File,
    Directory,
}

/// One directory entry: a name of at most `NAME_LEN` bytes and the id of
/// the inode it links to.
pub struct DirEntry {
    pub name: Vec<u8>,
    pub id: u32,
}

/// The on-disk state of one inode, read through the block cache.
pub struct DiskInode {
    pub kind: InodeKind,
    pub links: u32,
    pub size: u32,
    /// File contents; empty for directories.
    pub data: Vec<u8>,
    /// Directory entries; empty for files.
    pub entries: Vec<DirEntry>,
    /// The data blocks allocated to this inode, enough to hold `size`
    /// bytes.
    pub blocks: Vec<u32>,
}

/// How many data blocks a payload of `size` bytes occupies.
pub open spec fn spec_blocks_for(size: int) -> int {
    (size + BLOCK_SZ - 1) / (BLOCK_SZ as int)
}

/// Computes `spec_blocks_for` on machine integers.
pub fn blocks_for(size: u32) -> (n: u32)
    ensures
        n == spec_blocks_for(size as int),
{
    let q: u32 = size / (BLOCK_SZ as u32);
    let rem: u32 = size % (BLOCK_SZ as u32);
    let r: u32 = if rem != 0 {
        q + 1
    } else {
        q
    };
    proof {
        assert(r == (size + BLOCK_SZ - 1) / (BLOCK_SZ as int)) by (nonlinear_arith)
            requires
                q == size as int / 512,
                rem == size as int % 512,
                r == if rem != 0 { q + 1int } else { q as int },
                BLOCK_SZ == 512,
        ;
    }
    r
}

/// No two entries carry the same name, and every name is non-empty and
/// fits a fixed-size entry.
pub open spec fn entries_ok(es: Seq<DirEntry>) -> bool {
    &&& forall|i: int| 0 <= i < es.len() ==> 0 < (#[trigger] es[i]).name@.len() <= NAME_LEN
    &&& forall|i: int, j: int| 0 <= i < j < es.len() ==> (#[trigger] es[i]).name@ != (
    #[trigger] es[j]).name@
}

/// Whether some entry carries `name`.
pub open spec fn dir_has(es: Seq<DirEntry>, name: Seq<u8>) -> bool {
    exists|i: int| 0 <= i < es.len() && (#[trigger] es[i]).name@ == name
}

/// The index of the entry carrying `name`.
pub open spec fn dir_idx(es: Seq<DirEntry>, name: Seq<u8>) -> int {
    choose|i: int| 0 <= i < es.len() && (#[trigger] es[i]).name@ == name
}

/// What every stored inode satisfies. A file's data blocks cover its
/// payload; a directory's entries live in the inode area, below this
/// model's block accounting.
pub open spec fn inode_ok(d: DiskInode) -> bool {
    match d.kind {
        InodeKind::File => d.entries@.len() == 0 && d.data@.len() == d.size && d.blocks@.len()
            == spec_blocks_for(d.size as int),
        InodeKind::Directory => d.data@.len() == 0 && d.size == d.entries@.len() * DIRENT_SZ
            && entries_ok(d.entries@) && d.blocks@.len() == 0,
    }
}

/// The mounted filesystem: the inode table and the allocators for inode
/// ids and data blocks.
pub struct Fs {
    pub inodes: KvMap<DiskInode>,
    /// Data blocks returned to the free pool, newest last.
    pub free_blocks: Vec<u32>,
    pub next_block: u32,
    /// Inode ids returned to the free pool, newest last.
    pub free_inodes: Vec<u32>,
    pub next_inode: u32,
}

impl Fs {
    pub open spec fn wf(self) -> bool {
        &&& self.inodes.wf() && self.inodes.lengths_ok()
        &&& forall|id: u64| #[trigger] self.inodes@.contains_key(id) ==> id < 0x100000000
            && id < self.next_inode && inode_ok(self.inodes@[id])
        &&& forall|i: int| 0 <= i < self.free_inodes@.len() ==> (#[trigger] self.free_inodes@[i])
            < self.next_inode && !self.inodes@.contains_key(self.free_inodes@[i] as u64)
        &&& forall|i: int, j: int| 0 <= i < j < self.free_inodes@.len()
            ==> self.free_inodes@[i] != self.free_inodes@[j]
    }

    /// Whether inode `id` exists.
    pub open spec fn has_inode(self, id: u32) -> bool {
        self.inodes@.contains_key(id as u64)
    }

    /// The stored state of inode `id`.
    pub open spec fn inode(self, id: u32) -> DiskInode {
        self.inodes@[id as u64]
    }

    /// The byte of file `id` at `off`: stored data inside the file's size,
    /// zero beyond it.
    pub open spec fn byte_at(self, id: u32, off: int) -> u8 {
        if 0 <= off < self.inode(id).data@.len() {
            self.inode(id).data@[off]
        } else {
            0u8
        }
    }

    /// Builds an empty filesystem holding only the root directory, inode 0.
    pub fn new() -> (fs: Fs)
        ensures
            fs.wf(),
            fs.has_inode(0),
            fs.inode(0).kind == InodeKind::Directory,
            fs.inode(0).entries@.len() == 0,
            fs.inode(0).links == 1,
            fs.inodes@.dom() =~= set![0u64],
            fs.free_blocks@.len() == 0,
            fs.next_block == 0,
            fs.free_inodes@.len() == 0,
            fs.next_inode == 1,
    {
        let mut inodes: KvMap<DiskInode> = KvMap::new();
        let root = DiskInode {
            kind: InodeKind::Directory,
            links: 1,
            size: 0,
            data: Vec::new(),
            entries: Vec::new(),
            blocks: Vec::new(),
        };
        inodes.insert(0, root);
        Fs { inodes, free_blocks: Vec::new(), next_block: 0, free_inodes: Vec::new(), next_inode: 1 }
    }

    /// Headroom on the block allocator: writing any amount into one inode
    /// allocates at most as many blocks as the largest file occupies.
    pub open spec fn blocks_avail(self) -> bool {
        self.next_block + 0x800000 <= u32::MAX
    }

    /// Headroom on the inode allocator.
    pub open spec fn inodes_avail(self) -> bool {
        self.next_inode < u32::MAX
    }

    /// Reads inode `id`.
    pub fn get_inode(&self, id: u32) -> (d: &DiskInode)
        requires
            self.wf(),
            self.has_inode(id),
        ensures
            *d == self.inode(id),
    {
        match self.inodes.get(id as u64) {
            Some(d) => d,
            None => unreached(),
        }
    }
}

/// Two entry sequences carry the same names and ids.
pub open spec fn entries_match(a: Seq<DirEntry>, b: Seq<DirEntry>) -> bool {
    a.len() == b.len() && forall|i: int| 0 <= i < a.len() ==> entry_eq(#[trigger] a[i], b[i])
}

/// Two directory entries carry the same name and id.
pub open spec fn entry_eq(a: DirEntry, b: DirEntry) -> bool {
    a.name@ == b.name@ && a.id == b.id
}

/// `new_es` is `old_es` with one entry `(name, id)` appended.
pub open spec fn entries_pushed(
    old_es: Seq<DirEntry>,
    new_es: Seq<DirEntry>,
    name: Seq<u8>,
    id: u32,
) -> bool {
    &&& new_es.len() == old_es.len() + 1
    &&& forall|i: int| 0 <= i < old_es.len() ==> entry_eq(#[trigger] new_es[i], old_es[i])
    &&& new_es.last().name@ == name
    &&& new_es.last().id == id
}

/// `new_es` is `old_es` with the entry at `i` removed and the tail moved
/// up.
pub open spec fn entries_removed(old_es: Seq<DirEntry>, new_es: Seq<DirEntry>, i: int) -> bool {
    &&& new_es.len() == old_es.len() - 1
    &&& forall|j: int| 0 <= j < i ==> entry_eq(#[trigger] new_es[j], old_es[j])
    &&& forall|j: int| i <= j < new_es.len() ==> entry_eq(#[trigger] new_es[j], old_es[j + 1])
}

/// Under `entries_ok`, any entry holding `name` is the one `dir_idx`
/// picks.
pub proof fn lemma_dir_at(es: Seq<DirEntry>, name: Seq<u8>, i: int)
    requires
        entries_ok(es),
        0 <= i < es.len(),
        es[i].name@ == name,
    ensures
        dir_has(es, name),
        dir_idx(es, name) == i,
{
    assert(dir_has(es, name));
    let j = dir_idx(es, name);
    if j != i {
        assert(es[i].name@ != es[j].name@);
    }
}

/// Appending a fresh, valid name keeps a directory well-formed, and the
/// directory then holds exactly the old names plus the new one.
pub proof fn lemma_entries_pushed_ok(
    old_es: Seq<DirEntry>,
    new_es: Seq<DirEntry>,
    name: Seq<u8>,
    id: u32,
)
    requires
        entries_ok(old_es),
        !dir_has(old_es, name),
        0 < name.len() <= NAME_LEN,
        entries_pushed(old_es, new_es, name, id),
    ensures
        entries_ok(new_es),
        forall|n: Seq<u8>| #[trigger] dir_has(new_es, n) <==> (dir_has(old_es, n) || n == name),
{
    assert forall|i: int, j: int| 0 <= i < j < new_es.len() implies (#[trigger] new_es[i]).name@
        != (#[trigger] new_es[j]).name@ by {
        if j == old_es.len() {
            if new_es[i].name@ == name {
                assert(old_es[i].name@ == name);
                assert(dir_has(old_es, name));
            }
        } else {
            assert(old_es[i].name@ != old_es[j].name@);
        }
    }
    assert forall|n: Seq<u8>| #[trigger] dir_has(new_es, n) <==> (dir_has(old_es, n) || n
        == name) by {
        if dir_has(new_es, n) {
            let i = dir_idx(new_es, n);
            if i < old_es.len() {
                assert(old_es[i].name@ == n);
                assert(dir_has(old_es, n));
            }
        }
        if dir_has(old_es, n) {
            let i = dir_idx(old_es, n);
            assert(new_es[i].name@ == n);
            assert(dir_has(new_es, n));
        }
        if n == name {
            assert(new_es[new_es.len() - 1].name@ == n);
            assert(dir_has(new_es, n));
        }
    }
}

/// Removing one entry keeps a directory well-formed, and the directory
/// then holds exactly the old names minus the removed one.
pub proof fn lemma_entries_removed_ok(old_es: Seq<DirEntry>, new_es: Seq<DirEntry>, i: int)
    requires
        entries_ok(old_es),
        0 <= i < old_es.len(),
        entries_removed(old_es, new_es, i),
    ensures
        entries_ok(new_es),
        forall|n: Seq<u8>| #[trigger] dir_has(new_es, n) <==> (dir_has(old_es, n) && n
            != old_es[i].name@),
{
    assert forall|a: int, b: int| 0 <= a < b < new_es.len() implies (#[trigger] new_es[a]).name@
        != (#[trigger] new_es[b]).name@ by {
        let a0 = if a < i { a } else { a + 1 };
        let b0 = if b < i { b } else { b + 1 };
        assert(new_es[a].name@ == old_es[a0].name@);
        assert(new_es[b].name@ == old_es[b0].name@);
        assert(old_es[a0].name@ != old_es[b0].name@);
    }
    assert forall|n: Seq<u8>| #[trigger] dir_has(new_es, n) <==> (dir_has(old_es, n) && n
        != old_es[i].name@) by {
        if dir_has(new_es, n) {
            let a = dir_idx(new_es, n);
            let a0 = if a < i { a } else { a + 1 };
            assert(old_es[a0].name@ == n);
            assert(dir_has(old_es, n));
            if n == old_es[i].name@ {
                assert(a0 != i);
                assert(old_es[a0].name@ != old_es[i].name@);
            }
        }
        if dir_has(old_es, n) && n != old_es[i].name@ {
            let a0 = dir_idx(old_es, n);
            assert(old_es[a0].name@ == n);
            assert(a0 != i);
            let a = if a0 < i { a0 } else { a0 - 1 };
            assert(new_es[a].name@ == old_es[a0].name@);
            assert(dir_has(new_es, n));
        }
    }
}

/// Compares two byte strings.
pub fn bytes_eq(a: &Vec<u8>, b: &Vec<u8>) -> (r: bool)
    ensures
        r == (a@ == b@),
{
    if a.len() != b.len() {
        return false;
    }
    let mut i: usize = 0;
    while i < a.len()
        invariant
            a@.len() == b@.len(),
            i <= a@.len(),
            forall|j: int| 0 <= j < i ==> a@[j] == b@[j],
        decreases a@.len() - i,
    {
        if a[i] != b[i] {
            return false;
        }
        i = i + 1;
    }
    proof {
        assert(a@ =~= b@);
    }
    true
}

/// A handle to one inode. Handles compare equal when they name the same
/// inode id.
#[derive(Clone, Copy, PartialEq, Eq, Structural, Debug)]
pub struct Inode {
    pub id: u32,
}

impl Inode {
    /// Builds a handle to inode `id`.
    pub fn new(id: u32) -> (ino: Inode)
        ensures
            ino.id == id,
    {
        Inode { id }
    }

    /// The id of the inode this handle names.
    pub fn get_inode_id(&self) -> (r: u32)
        ensures
            r == self.id,
    {
        self.id
    }

    /// Whether this inode is a directory.
    pub fn is_dir(&self, fs: &Fs) -> (r: bool)
        requires
            fs.wf(),
            fs.has_inode(self.id),
        ensures
            r == (fs.inode(self.id).kind is Directory),
    {
        matches!(fs.get_inode(self.id).kind, InodeKind::Directory)
    }

    /// Whether this inode is a plain file.
    pub fn is_file(&self, fs: &Fs) -> (r: bool)
        requires
            fs.wf(),
            fs.has_inode(self.id),
        ensures
            r == (fs.inode(self.id).kind is File),
    {
        matches!(fs.get_inode(self.id).kind, InodeKind::File)
    }

    /// The recorded link count of this inode.
    pub fn get_links(&self, fs: &Fs) -> (r: u32)
        requires
            fs.wf(),
            fs.has_inode(self.id),
        ensures
            r == fs.inode(self.id).links,
    {
        fs.get_inode(self.id).links
    }

    /// Scans this directory for `name` and returns a handle to the inode
    /// it links to.
    pub fn find(&self, fs: &Fs, name: &Vec<u8>) -> (r: Option<Inode>)
        requires
            fs.wf(),
            fs.has_inode(self.id),
            fs.inode(self.id).kind is Directory,
        ensures
            ({
                let es = fs.inode(self.id).entries@;
                match r {
                    Some(ino) => dir_has(es, name@) && ino.id == es[dir_idx(es, name@)].id,
                    None => !dir_has(es, name@),
                }
            }),
    {
        let d = fs.get_inode(self.id);
        let ghost es = fs.inode(self.id).entries@;
        let mut i: usize = 0;
        while i < d.entries.len()
            invariant
                fs.wf(),
                fs.has_inode(self.id),
                fs.inode(self.id).kind is Directory,
                d == fs.inode(self.id),
                es == fs.inode(self.id).entries@,
                i <= es.len(),
                forall|j: int| 0 <= j < i ==> (#[trigger] es[j]).name@ != name@,
            decreases es.len() - i,
        {
            if bytes_eq(&d.entries[i].name, name) {
                proof {
                    lemma_dir_at(es, name@, i as int);
                }
                return Some(Inode { id: d.entries[i].id });
            }
            i = i + 1;
        }
        None
    }

    /// Lists the names in this directory, in storage order. The list is as
    /// long as the directory's size says, and holds no duplicate and no
    /// empty name.
    pub fn ls(&self, fs: &Fs) -> (r: Vec<Vec<u8>>)
        requires
            fs.wf(),
            fs.has_inode(self.id),
            fs.inode(self.id).kind is Directory,
        ensures
            ({
                let es = fs.inode(self.id).entries@;
                &&& r@.len() == es.len()
                &&& r@.len() * DIRENT_SZ == fs.inode(self.id).size
                &&& forall|i: int| 0 <= i < es.len() ==> (#[trigger] r@[i])@ == es[i].name@
                &&& forall|i: int, j: int|
                    0 <= i < j < r@.len() ==> (#[trigger] r@[i])@ != (#[trigger] r@[j])@
                &&& forall|i: int| 0 <= i < r@.len() ==> 0 < (#[trigger] r@[i])@.len() <= NAME_LEN
            }),
    {
        let d = fs.get_inode(self.id);
        let ghost es = fs.inode(self.id).entries@;
        let mut r: Vec<Vec<u8>> = Vec::new();
        let mut i: usize = 0;
        while i < d.entries.len()
            invariant
                d == fs.inode(self.id),
                es == fs.inode(self.id).entries@,
                i <= es.len(),
                r@.len() == i,
                forall|j: int| 0 <= j < i ==> (#[trigger] r@[j])@ == es[j].name@,
                entries_ok(es),
            decreases es.len() - i,
        {
            r.push(crate::kernel::clone_bytes(&d.entries[i].name));
            i = i + 1;
        }
        r
    }

    /// The index of `name` in this directory, scanning in storage order.
    fn find_idx(&self, fs: &Fs, name: &Vec<u8>) -> (r: Option<usize>)
        requires
            fs.wf(),
            fs.has_inode(self.id),
            fs.inode(self.id).kind is Directory,
        ensures
            ({
                let es = fs.inode(self.id).entries@;
                match r {
                    Some(i) => dir_has(es, name@) && dir_idx(es, name@) == i && i < es.len(),
                    None => !dir_has(es, name@),
                }
            }),
    {
        let d = fs.get_inode(self.id);
        let ghost es = fs.inode(self.id).entries@;
        let mut i: usize = 0;
        while i < d.entries.len()
            invariant
                fs.wf(),
                fs.has_inode(self.id),
                fs.inode(self.id).kind is Directory,
                d == fs.inode(self.id),
                es == fs.inode(self.id).entries@,
                i <= es.len(),
                forall|j: int| 0 <= j < i ==> (#[trigger] es[j]).name@ != name@,
            decreases es.len() - i,
        {
            if bytes_eq(&d.entries[i].name, name) {
                proof {
                    lemma_dir_at(es, name@, i as int);
                }
                return Some(i);
            }
            i = i + 1;
        }
        None
    }

    /// Creates a new empty file named `name` in this directory. On a name
    /// collision nothing changes and no handle is returned.
    pub fn create(&self, fs: &mut Fs, name: &Vec<u8>) -> (r: Option<Inode>)
        requires
            old(fs).wf(),
            old(fs).has_inode(self.id),
            old(fs).inode(self.id).kind is Directory,
            0 < name@.len() <= NAME_LEN,
            old(fs).inodes_avail(),
            old(fs).inode(self.id).size + DIRENT_SZ <= u32::MAX,
        ensures
            final(fs).wf(),
            dir_has(old(fs).inode(self.id).entries@, name@) ==> r is None && final(fs).inodes@
                == old(fs).inodes@ && final(fs).free_inodes@ == old(fs).free_inodes@ && final(fs).next_inode == old(fs).next_inode && final(fs).free_blocks@ == old(fs).free_blocks@
                && final(fs).next_block == old(fs).next_block,
            !dir_has(old(fs).inode(self.id).entries@, name@) ==> (r matches Some(ino) && {
                let od = old(fs).inode(self.id);
                let nd = final(fs).inode(self.id);
                let nf = final(fs).inode(ino.id);
                &&& !old(fs).has_inode(ino.id)
                &&& ino.id != self.id
                &&& final(fs).inodes@ == old(fs).inodes@.insert(self.id as u64, nd).insert(
                    ino.id as u64,
                    nf,
                )
                &&& entries_pushed(od.entries@, nd.entries@, name@, ino.id)
                &&& nd.kind is Directory
                &&& nd.links == od.links
                &&& nd.size == od.size + DIRENT_SZ
                &&& nf.kind is File
                &&& nf.links == 1
                &&& nf.size == 0
                &&& nf.data@.len() == 0
                &&& (old(fs).free_inodes@.len() > 0 ==> ino.id == old(fs).free_inodes@.last()
                    && final(fs).free_inodes@ == old(fs).free_inodes@.drop_last() && final(fs).next_inode == old(fs).next_inode)
                &&& (old(fs).free_inodes@.len() == 0 ==> ino.id == old(fs).next_inode && final(fs).free_inodes@ == old(fs).free_inodes@ && final(fs).next_inode == old(
                    fs,
                ).next_inode + 1)
                &&& final(fs).free_blocks@ == old(fs).free_blocks@
                &&& final(fs).next_block == old(fs).next_block
            }),
    {
        if self.find_idx(fs, name).is_some() {
            return None;
        }
        let ghost ofs = *fs;
        let nid: u32 = match fs.free_inodes.pop() {
            Some(b) => b,
            None => {
                let b = fs.next_inode;
                fs.next_inode = fs.next_inode + 1;
                b
            },
        };
        proof {
            assert(!ofs.inodes@.contains_key(nid as u64));
            assert(nid as u64 != self.id as u64);
        }
        fs.inodes.insert(
            nid as u64,
            DiskInode {
                kind: InodeKind::File,
                links: 1,
                size: 0,
                data: Vec::new(),
                entries: Vec::new(),
                blocks: Vec::new(),
            },
        );
        let mut d = match fs.inodes.remove(self.id as u64) {
            Some(d) => d,
            None => unreached(),
        };
        d.entries.push(DirEntry { name: crate::kernel::clone_bytes(name), id: nid });
        d.size = d.size + (DIRENT_SZ as u32);
        fs.inodes.insert(self.id as u64, d);
        proof {
            assert(fs.inodes@ =~= ofs.inodes@.insert(self.id as u64, fs.inode(self.id)).insert(
                nid as u64,
                fs.inode(nid),
            ));
            lemma_entries_pushed_ok(
                ofs.inode(self.id).entries@,
                fs.inode(self.id).entries@,
                name@,
                nid,
            );
            assert forall|id: u64| #[trigger] fs.inodes@.contains_key(id) implies id < 0x100000000
                && id < fs.next_inode && inode_ok(fs.inodes@[id]) by {
                if id == self.id as u64 {
                    let od = ofs.inode(self.id);
                    assert(od.size == od.entries@.len() * DIRENT_SZ);
                    assert((od.entries@.len() + 1) * DIRENT_SZ == od.entries@.len() * DIRENT_SZ
                        + DIRENT_SZ) by (nonlinear_arith);
                } else if id == nid as u64 {
                } else {
                    assert(ofs.inodes@.contains_key(id));
                }
            }
        }
        Some(Inode { id: nid })
    }

    /// Links `name` in this directory to the existing inode `inode_id`,
    /// raising that inode's link count by one. On a name collision nothing
    /// changes and no handle is returned.
    pub fn link(&self, fs: &mut Fs, name: &Vec<u8>, inode_id: u32) -> (r: Option<Inode>)
        requires
            old(fs).wf(),
            old(fs).has_inode(self.id),
            old(fs).inode(self.id).kind is Directory,
            0 < name@.len() <= NAME_LEN,
            old(fs).has_inode(inode_id),
            old(fs).inode(inode_id).links < u32::MAX,
            old(fs).inode(self.id).size + DIRENT_SZ <= u32::MAX,
        ensures
            final(fs).wf(),
            dir_has(old(fs).inode(self.id).entries@, name@) ==> r is None && final(fs).inodes@
                == old(fs).inodes@ && final(fs).free_inodes@ == old(fs).free_inodes@
                && final(fs).next_inode == old(fs).next_inode && final(fs).free_blocks@ == old(fs).free_blocks@
                && final(fs).next_block == old(fs).next_block,
            !dir_has(old(fs).inode(self.id).entries@, name@) ==> r == Some(
                Inode { id: inode_id },
            ),
            (!dir_has(old(fs).inode(self.id).entries@, name@) && inode_id == self.id) ==> ({
                let od = old(fs).inode(self.id);
                let nd = final(fs).inode(self.id);
                &&& final(fs).inodes@ == old(fs).inodes@.insert(self.id as u64, nd)
                &&& entries_pushed(od.entries@, nd.entries@, name@, inode_id)
                &&& nd.kind is Directory
                &&& nd.links == od.links + 1
                &&& nd.size == od.size + DIRENT_SZ
                &&& nd.data@ == od.data@
                &&& nd.blocks@ == od.blocks@
                &&& final(fs).free_inodes@ == old(fs).free_inodes@
                &&& final(fs).next_inode == old(fs).next_inode
                &&& final(fs).free_blocks@ == old(fs).free_blocks@
                &&& final(fs).next_block == old(fs).next_block
            }),
            (!dir_has(old(fs).inode(self.id).entries@, name@) && inode_id != self.id) ==> ({
                let od = old(fs).inode(self.id);
                let ot = old(fs).inode(inode_id);
                let nd = final(fs).inode(self.id);
                let nt = final(fs).inode(inode_id);
                &&& final(fs).inodes@ == old(fs).inodes@.insert(self.id as u64, nd).insert(
                    inode_id as u64,
                    nt,
                )
                &&& entries_pushed(od.entries@, nd.entries@, name@, inode_id)
                &&& nd.kind is Directory
                &&& nd.links == od.links
                &&& nd.size == od.size + DIRENT_SZ
                &&& nt.links == ot.links + 1
                &&& nt.kind == ot.kind
                &&& nt.size == ot.size
                &&& nt.data@ == ot.data@
                &&& entries_match(nt.entries@, ot.entries@)
                &&& nt.blocks@ == ot.blocks@
                &&& final(fs).free_inodes@ == old(fs).free_inodes@
                &&& final(fs).next_inode == old(fs).next_inode
                &&& final(fs).free_blocks@ == old(fs).free_blocks@
                &&& final(fs).next_block == old(fs).next_block
            }),
    {
        if self.find_idx(fs, name).is_some() {
            return None;
        }
        let ghost ofs = *fs;
        if inode_id == self.id {
            let mut d = match fs.inodes.remove(self.id as u64) {
                Some(d) => d,
                None => unreached(),
            };
            d.entries.push(DirEntry { name: crate::kernel::clone_bytes(name), id: inode_id });
            d.size = d.size + (DIRENT_SZ as u32);
            d.links = d.links + 1;
            fs.inodes.insert(self.id as u64, d);
            proof {
                assert(fs.inodes@ =~= ofs.inodes@.insert(self.id as u64, fs.inode(self.id)));
                lemma_entries_pushed_ok(
                    ofs.inode(self.id).entries@,
                    fs.inode(self.id).entries@,
                    name@,
                    inode_id,
                );
                assert forall|id: u64| #[trigger] fs.inodes@.contains_key(id) implies id
                    < 0x100000000 && id < fs.next_inode && inode_ok(fs.inodes@[id]) by {
                    if id == self.id as u64 {
                        let od = ofs.inode(self.id);
                        assert(od.size == od.entries@.len() * DIRENT_SZ);
                        assert((od.entries@.len() + 1) * DIRENT_SZ == od.entries@.len()
                            * DIRENT_SZ + DIRENT_SZ) by (nonlinear_arith);
                    } else {
                        assert(ofs.inodes@.contains_key(id));
                    }
                }
            }
            return Some(Inode { id: inode_id });
        }
        let mut d = match fs.inodes.remove(self.id as u64) {
            Some(d) => d,
            None => unreached(),
        };
        d.entries.push(DirEntry { name: crate::kernel::clone_bytes(name), id: inode_id });
        d.size = d.size + (DIRENT_SZ as u32);
        fs.inodes.insert(self.id as u64, d);
        let mut t = match fs.inodes.remove(inode_id as u64) {
            Some(t) => t,
            None => unreached(),
        };
        t.links = t.links + 1;
        fs.inodes.insert(inode_id as u64, t);
        proof {
            assert(fs.inodes@ =~= ofs.inodes@.insert(self.id as u64, fs.inode(self.id)).insert(
                inode_id as u64,
                fs.inode(inode_id),
            ));
            lemma_entries_pushed_ok(
                ofs.inode(self.id).entries@,
                fs.inode(self.id).entries@,
                name@,
                inode_id,
            );
            assert forall|id: u64| #[trigger] fs.inodes@.contains_key(id) implies id < 0x100000000
                && id < fs.next_inode && inode_ok(fs.inodes@[id]) by {
                if id == self.id as u64 {
                    let od = ofs.inode(self.id);
                    assert(od.size == od.entries@.len() * DIRENT_SZ);
                    assert((od.entries@.len() + 1) * DIRENT_SZ == od.entries@.len() * DIRENT_SZ
                        + DIRENT_SZ) by (nonlinear_arith);
                } else if id == inode_id as u64 {
                    assert(inode_ok(ofs.inodes@[id]));
                } else {
                    assert(ofs.inodes@.contains_key(id));
                }
            }
        }
        Some(Inode { id: inode_id })
    }

    /// Removes the entry `name` from this directory, compacting the
    /// remaining entries, and lowers the target inode's link count by one.
    /// Returns the target's id and its link count before the drop; when
    /// that count was one, the inode and all its data blocks are freed.
    pub fn unlink(&self, fs: &mut Fs, name: &Vec<u8>) -> (r: Option<(u32, u32)>)
        requires
            old(fs).wf(),
            old(fs).has_inode(self.id),
            old(fs).inode(self.id).kind is Directory,
            ({
                let es = old(fs).inode(self.id).entries@;
                dir_has(es, name@) ==> {
                    let tid = es[dir_idx(es, name@)].id;
                    old(fs).has_inode(tid) && old(fs).inode(tid).links >= 1
                }
            }),
        ensures
            final(fs).wf(),
            !dir_has(old(fs).inode(self.id).entries@, name@) ==> r is None && final(fs).inodes@
                == old(fs).inodes@ && final(fs).free_inodes@ == old(fs).free_inodes@
                && final(fs).next_inode == old(fs).next_inode && final(fs).free_blocks@ == old(fs).free_blocks@
                && final(fs).next_block == old(fs).next_block,
            dir_has(old(fs).inode(self.id).entries@, name@) ==> ({
                let es = old(fs).inode(self.id).entries@;
                let i = dir_idx(es, name@);
                let tid = es[i].id;
                let prev = old(fs).inode(tid).links;
                let od = old(fs).inode(self.id);
                let nd = final(fs).inode(self.id);
                &&& r == Some((tid, prev))
                &&& final(fs).next_inode == old(fs).next_inode
                &&& final(fs).next_block == old(fs).next_block
                &&& (tid != self.id ==> {
                    &&& entries_removed(es, nd.entries@, i)
                    &&& nd.kind is Directory
                    &&& nd.links == od.links
                    &&& nd.size == od.size - DIRENT_SZ
                    &&& (prev == 1 ==> final(fs).inodes@ == old(fs).inodes@.insert(
                        self.id as u64,
                        nd,
                    ).remove(tid as u64) && final(fs).free_blocks@ == old(fs).free_blocks@
                        + old(fs).inode(tid).blocks@ && final(fs).free_inodes@
                        == old(fs).free_inodes@.push(tid))
                    &&& (prev != 1 ==> {
                        let nt = final(fs).inode(tid);
                        &&& final(fs).inodes@ == old(fs).inodes@.insert(
                            self.id as u64,
                            nd,
                        ).insert(tid as u64, nt)
                        &&& nt.links == prev - 1
                        &&& nt.kind == old(fs).inode(tid).kind
                        &&& nt.size == old(fs).inode(tid).size
                        &&& nt.data@ == old(fs).inode(tid).data@
                        &&& entries_match(nt.entries@, old(fs).inode(tid).entries@)
                        &&& nt.blocks@ == old(fs).inode(tid).blocks@
                        &&& final(fs).free_blocks@ == old(fs).free_blocks@
                        &&& final(fs).free_inodes@ == old(fs).free_inodes@
                    })
                })
                &&& ((tid == self.id && prev != 1) ==> {
                    &&& final(fs).inodes@ == old(fs).inodes@.insert(self.id as u64, nd)
                    &&& entries_removed(es, nd.entries@, i)
                    &&& nd.kind is Directory
                    &&& nd.links == prev - 1
                    &&& nd.size == od.size - DIRENT_SZ
                    &&& nd.data@ == od.data@
                    &&& nd.blocks@ == od.blocks@
                    &&& final(fs).free_blocks@ == old(fs).free_blocks@
                    &&& final(fs).free_inodes@ == old(fs).free_inodes@
                })
                &&& ((tid == self.id && prev == 1) ==> {
                    &&& final(fs).inodes@ == old(fs).inodes@.remove(self.id as u64)
                    &&& final(fs).free_blocks@ == old(fs).free_blocks@ + od.blocks@
                    &&& final(fs).free_inodes@ == old(fs).free_inodes@.push(tid)
                })
            }),
    {
        let i = match self.find_idx(fs, name) {
            Some(i) => i,
            None => {
                return None;
            },
        };
        let ghost ofs = *fs;
        let ghost es = fs.inode(self.id).entries@;
        let mut d = match fs.inodes.remove(self.id as u64) {
            Some(d) => d,
            None => unreached(),
        };
        let ent = d.entries.remove(i);
        let tid = ent.id;
        d.size = d.size - (DIRENT_SZ as u32);
        if tid == self.id {
            let prev = d.links;
            proof {
                assert(entries_removed(es, d.entries@, i as int));
                lemma_entries_removed_ok(es, d.entries@, i as int);
                let od = ofs.inode(self.id);
                assert(od.size == od.entries@.len() * DIRENT_SZ);
                assert((od.entries@.len() - 1) * DIRENT_SZ == od.entries@.len() * DIRENT_SZ
                    - DIRENT_SZ) by (nonlinear_arith);
            }
            if prev == 1 {
                let mut dd = d;
                fs.free_blocks.append(&mut dd.blocks);
                fs.free_inodes.push(tid);
                proof {
                    assert(fs.inodes@ =~= ofs.inodes@.remove(self.id as u64));
                    assert forall|id: u64| #[trigger] fs.inodes@.contains_key(id) implies id
                        < 0x100000000 && id < fs.next_inode && inode_ok(fs.inodes@[id]) by {
                        assert(ofs.inodes@.contains_key(id));
                    }
                    assert forall|j: int| 0 <= j < fs.free_inodes@.len() implies (
                    #[trigger] fs.free_inodes@[j]) < fs.next_inode
                        && !fs.inodes@.contains_key(fs.free_inodes@[j] as u64) by {
                        if j < ofs.free_inodes@.len() {
                            assert(ofs.free_inodes@[j] == fs.free_inodes@[j]);
                        } else {
                            assert(fs.free_inodes@[j] == tid);
                            assert(ofs.inodes@.contains_key(tid as u64));
                        }
                    }
                    assert forall|j: int, j2: int|
                        0 <= j < j2 < fs.free_inodes@.len() implies fs.free_inodes@[j]
                        != fs.free_inodes@[j2] by {
                        if j2 == ofs.free_inodes@.len() {
                            assert(fs.free_inodes@[j] == ofs.free_inodes@[j]);
                            assert(!ofs.inodes@.contains_key(ofs.free_inodes@[j] as u64));
                            assert(ofs.inodes@.contains_key(tid as u64));
                        }
                    }
                }
                return Some((tid, prev));
            }
            d.links = d.links - 1;
            fs.inodes.insert(self.id as u64, d);
            proof {
                assert(fs.inodes@ =~= ofs.inodes@.insert(self.id as u64, fs.inode(self.id)));
                assert forall|id: u64| #[trigger] fs.inodes@.contains_key(id) implies id
                    < 0x100000000 && id < fs.next_inode && inode_ok(fs.inodes@[id]) by {
                    if id != self.id as u64 {
                        assert(ofs.inodes@.contains_key(id));
                    }
                }
            }
            return Some((tid, prev));
        }
        fs.inodes.insert(self.id as u64, d);
        proof {
            assert(entries_removed(es, fs.inode(self.id).entries@, i as int));
            lemma_entries_removed_ok(es, fs.inode(self.id).entries@, i as int);
            let od = ofs.inode(self.id);
            assert(od.size == od.entries@.len() * DIRENT_SZ);
            assert((od.entries@.len() - 1) * DIRENT_SZ == od.entries@.len() * DIRENT_SZ
                - DIRENT_SZ) by (nonlinear_arith);
        }
        let mut t = match fs.inodes.remove(tid as u64) {
            Some(t) => t,
            None => unreached(),
        };
        let prev = t.links;
        if prev == 1 {
            fs.free_blocks.append(&mut t.blocks);
            fs.free_inodes.push(tid);
            proof {
                assert(fs.inodes@ =~= ofs.inodes@.insert(
                    self.id as u64,
                    fs.inode(self.id),
                ).remove(tid as u64));
                assert forall|id: u64| #[trigger] fs.inodes@.contains_key(id) implies id
                    < 0x100000000 && id < fs.next_inode && inode_ok(fs.inodes@[id]) by {
                    if id != self.id as u64 {
                        assert(ofs.inodes@.contains_key(id));
                    }
                }
                assert forall|j: int| 0 <= j < fs.free_inodes@.len() implies (
                #[trigger] fs.free_inodes@[j]) < fs.next_inode && !fs.inodes@.contains_key(
                    fs.free_inodes@[j] as u64,
                ) by {
                    if j < ofs.free_inodes@.len() {
                        assert(ofs.free_inodes@[j] == fs.free_inodes@[j]);
                    } else {
                        assert(fs.free_inodes@[j] == tid);
                        assert(ofs.inodes@.contains_key(tid as u64));
                    }
                }
            }
        } else {
            t.links = t.links - 1;
            fs.inodes.insert(tid as u64, t);
            proof {
                assert(fs.inodes@ =~= ofs.inodes@.insert(self.id as u64, fs.inode(self.id)).insert(
                    tid as u64,
                    fs.inode(tid),
                ));
                assert forall|id: u64| #[trigger] fs.inodes@.contains_key(id) implies id
                    < 0x100000000 && id < fs.next_inode && inode_ok(fs.inodes@[id]) by {
                    if id != self.id as u64 && id != tid as u64 {
                        assert(ofs.inodes@.contains_key(id));
                    } else if id == tid as u64 {
                        assert(inode_ok(ofs.inodes@[id]));
                    }
                }
            }
        }
        Some((tid, prev))
    }

    /// Reads bytes of this file starting at `offset` into the front of
    /// `buf`, stopping at the file's end; returns how many bytes came.
    pub fn read_at(&self, fs: &Fs, offset: usize, buf: &mut Vec<u8>) -> (n: usize)
        requires
            fs.wf(),
            fs.has_inode(self.id),
            fs.inode(self.id).kind is File,
        ensures
            final(buf)@.len() == old(buf)@.len(),
            ({
                let data = fs.inode(self.id).data@;
                let n0 = if offset >= data.len() {
                    0int
                } else if data.len() - offset < old(buf)@.len() {
                    data.len() - offset
                } else {
                    old(buf)@.len() as int
                };
                &&& n == n0
                &&& forall|i: int| 0 <= i < n0 ==> final(buf)@[i] == data[offset + i]
                &&& forall|i: int| n0 <= i < old(buf)@.len() ==> final(buf)@[i] == old(buf)@[i]
            }),
    {
        let d = fs.get_inode(self.id);
        let n: usize = if offset >= d.data.len() {
            0
        } else if d.data.len() - offset < buf.len() {
            d.data.len() - offset
        } else {
            buf.len()
        };
        let mut i: usize = 0;
        while i < n
            invariant
                d == fs.inode(self.id),
                n <= buf@.len(),
                offset + n <= d.data@.len() || n == 0,
                offset + n <= usize::MAX,
                i <= n,
                buf@.len() == old(buf)@.len(),
                forall|j: int| 0 <= j < i ==> buf@[j] == d.data@[offset + j],
                forall|j: int| i <= j < buf@.len() ==> buf@[j] == old(buf)@[j],
            decreases n - i,
        {
            buf[i] = d.data[offset + i];
            i = i + 1;
        }
        n
    }

    /// Writes `buf` into this file at `offset`, growing the file as needed
    /// and zero-filling any gap between the old end and `offset`; data
    /// blocks are drawn from the free pool first. Returns the number of
    /// bytes written.
    pub fn write_at(&self, fs: &mut Fs, offset: usize, buf: &Vec<u8>) -> (n: usize)
        requires
            old(fs).wf(),
            old(fs).has_inode(self.id),
            old(fs).inode(self.id).kind is File,
            offset + buf@.len() <= u32::MAX,
            old(fs).blocks_avail(),
        ensures
            final(fs).wf(),
            n == buf@.len(),
            final(fs).inodes@ == old(fs).inodes@.insert(self.id as u64, final(fs).inode(self.id)),
            ({
                let od = old(fs).inode(self.id);
                let nd = final(fs).inode(self.id);
                let newlen = if offset + buf@.len() > od.data@.len() {
                    offset + buf@.len()
                } else {
                    od.data@.len() as int
                };
                &&& nd.kind is File
                &&& nd.links == od.links
                &&& nd.size == newlen
                &&& nd.data@.len() == newlen
                &&& forall|i: int|
                    0 <= i < od.data@.len() && !(offset <= i < offset + buf@.len())
                        ==> nd.data@[i] == od.data@[i]
                &&& forall|i: int|
                    od.data@.len() <= i < newlen && !(offset <= i < offset + buf@.len())
                        ==> nd.data@[i] == 0u8
                &&& forall|i: int| 0 <= i < buf@.len() ==> nd.data@[offset + i] == buf@[i]
            }),
            final(fs).free_blocks@ == old(fs).free_blocks@.take(final(fs).free_blocks@.len() as int),
            final(fs).free_blocks@.len() <= old(fs).free_blocks@.len(),
            final(fs).next_block >= old(fs).next_block,
            old(fs).free_blocks@.len() - final(fs).free_blocks@.len() + final(fs).next_block
                - old(fs).next_block == spec_blocks_for(final(fs).inode(self.id).size as int)
                - spec_blocks_for(old(fs).inode(self.id).size as int),
            final(fs).free_inodes@ == old(fs).free_inodes@,
            final(fs).next_inode == old(fs).next_inode,
    {
        let ghost ofs = *fs;
        let mut d = match fs.inodes.remove(self.id as u64) {
            Some(d) => d,
            None => unreached(),
        };
        let ghost od = ofs.inode(self.id);
        let ghost odata = d.data@;
        let target: usize = offset + buf.len();
        while d.data.len() < target
            invariant
                odata.len() <= d.data@.len(),
                d.data@.len() <= target || d.data@.len() == odata.len(),
                forall|j: int| 0 <= j < odata.len() ==> d.data@[j] == odata[j],
                forall|j: int| odata.len() <= j < d.data@.len() ==> d.data@[j] == 0u8,
                d.blocks@ == od.blocks@,
                d.kind == od.kind,
                d.links == od.links,
                d.entries@.len() == 0,
            decreases target - d.data@.len(),
        {
            d.data.push(0u8);
        }
        let mut i: usize = 0;
        while i < buf.len()
            invariant
                i <= buf@.len(),
                offset + buf@.len() <= d.data@.len(),
                offset + buf@.len() <= usize::MAX,
                d.data@.len() == if offset + buf@.len() > odata.len() {
                    offset + buf@.len()
                } else {
                    odata.len() as int
                },
                forall|j: int|
                    0 <= j < d.data@.len() && !(offset <= j < offset + i) ==> d.data@[j] == (
                    if j < odata.len() {
                        odata[j]
                    } else {
                        0u8
                    }),
                forall|j: int| 0 <= j < i ==> d.data@[offset + j] == buf@[j],
                d.blocks@ == od.blocks@,
                d.kind == od.kind,
                d.links == od.links,
                d.entries@.len() == 0,
            decreases buf@.len() - i,
        {
            d.data[offset + i] = buf[i];
            i = i + 1;
        }
        proof {
            assert(d.data@.len() <= u32::MAX);
        }
        d.size = d.data.len() as u32;
        let want = blocks_for(d.size);
        let ghost gdata = d.data@;
        proof {
            assert(od.data@ == odata && od.data@.len() == od.size);
            assert(want <= 0x800000) by (nonlinear_arith)
                requires
                    want == (d.size + 511) / 512,
                    d.size <= u32::MAX,
            ;
            assert(d.blocks@.len() <= want) by (nonlinear_arith)
                requires
                    d.blocks@.len() == (odata.len() + 511) / 512,
                    want == (d.size + 511) / 512,
                    odata.len() <= d.size,
            ;
            assert(fs.free_blocks@ =~= ofs.free_blocks@.take(fs.free_blocks@.len() as int));
        }
        while d.blocks.len() < want as usize
            invariant
                want <= 0x800000,
                d.blocks@.len() <= want,
                ofs.blocks_avail(),
                fs.free_blocks@ == ofs.free_blocks@.take(fs.free_blocks@.len() as int),
                fs.free_blocks@.len() <= ofs.free_blocks@.len(),
                ofs.free_blocks@.len() - fs.free_blocks@.len() + fs.next_block - ofs.next_block
                    == d.blocks@.len() - od.blocks@.len(),
                od.blocks@.len() == spec_blocks_for(od.size as int),
                od.blocks@.len() <= d.blocks@.len(),
                fs.next_block - ofs.next_block <= d.blocks@.len(),
                fs.next_block >= ofs.next_block,
                fs.free_inodes@ == ofs.free_inodes@,
                fs.next_inode == ofs.next_inode,
                fs.inodes@ == ofs.inodes@.remove(self.id as u64),
                fs.inodes.wf() && fs.inodes.lengths_ok(),
                d.data@ == gdata,
                d.size == gdata.len(),
                want == spec_blocks_for(d.size as int),
                d.kind == od.kind,
                d.links == od.links,
                d.entries@.len() == 0,
            decreases want - d.blocks@.len(),
        {
            let b: u32 = match fs.free_blocks.pop() {
                Some(b) => b,
                None => {
                    let nb = fs.next_block;
                    fs.next_block = nb + 1;
                    nb
                },
            };
            d.blocks.push(b);
            proof {
                assert(fs.free_blocks@ =~= ofs.free_blocks@.take(fs.free_blocks@.len() as int));
            }
        }
        fs.inodes.insert(self.id as u64, d);
        proof {
            assert(fs.inodes@ =~= ofs.inodes@.insert(self.id as u64, fs.inode(self.id)));
            assert forall|id: u64| #[trigger] fs.inodes@.contains_key(id) implies id < 0x100000000
                && id < fs.next_inode && inode_ok(fs.inodes@[id]) by {
                if id != self.id as u64 {
                    assert(ofs.inodes@.contains_key(id));
                }
            }
        }
        buf.len()
    }

    /// Frees all data of this file: its bytes are dropped, its size
    /// becomes zero, and its data blocks return to the free pool.
    pub fn clear(&self, fs: &mut Fs)
        requires
            old(fs).wf(),
            old(fs).has_inode(self.id),
            old(fs).inode(self.id).kind is File,
        ensures
            final(fs).wf(),
            final(fs).inodes@ == old(fs).inodes@.insert(self.id as u64, final(fs).inode(self.id)),
            ({
                let nd = final(fs).inode(self.id);
                &&& nd.kind == old(fs).inode(self.id).kind
                &&& nd.links == old(fs).inode(self.id).links
                &&& nd.size == 0
                &&& nd.data@.len() == 0
                &&& nd.blocks@.len() == 0
            }),
            final(fs).free_blocks@ == old(fs).free_blocks@ + old(fs).inode(self.id).blocks@,
            final(fs).next_block == old(fs).next_block,
            final(fs).free_inodes@ == old(fs).free_inodes@,
            final(fs).next_inode == old(fs).next_inode,
    {
        let ghost ofs = *fs;
        let mut d = match fs.inodes.remove(self.id as u64) {
            Some(d) => d,
            None => unreached(),
        };
        fs.free_blocks.append(&mut d.blocks);
        d.data = Vec::new();
        d.size = 0;
        fs.inodes.insert(self.id as u64, d);
        proof {
            assert(fs.inodes@ =~= ofs.inodes@.insert(self.id as u64, fs.inode(self.id)));
            assert forall|id: u64| #[trigger] fs.inodes@.contains_key(id) implies id < 0x100000000
                && id < fs.next_inode && inode_ok(fs.inodes@[id]) by {
                if id != self.id as u64 {
                    assert(ofs.inodes@.contains_key(id));
                }
            }
        }
    }
}

} // verus!
