//! Page-table entries and permission sets, modelled with one named bit per
//! flag of the Sv39 leaf entry that the kernel inspects.

use vstd::prelude::*;

verus! {

/// The permission of a map area: the R/W/X/U bits that its pages carry.
#[derive(Clone, Copy, PartialEq, Eq, Structural, Debug)]
pub struct Perm {
    pub r: bool,
    pub w: bool,
    pub x: bool,
    pub u: bool,
}

impl Perm {
    /// Read plus write, the permission of kernel data areas.
    pub fn rw() -> (p: Perm)
        ensures
            p == (Perm { r: true, w: true, x: false, u: false }),
    {
        Perm { r: true, w: true, x: false, u: false }
    }

    /// Read plus write plus user, the permission of user stacks and heaps.
    pub fn rwu() -> (p: Perm)
        ensures
            p == (Perm { r: true, w: true, x: false, u: true }),
    {
        Perm { r: true, w: true, x: false, u: true }
    }
}

/// One leaf page-table entry: a physical page number and the flag bits the
/// kernel reads. An entry with `v == false` maps nothing.
#[derive(Clone, Copy, PartialEq, Eq, Structural, Debug)]
pub struct Pte {
    pub ppn: u64,
    pub v: bool,
    pub r: bool,
    pub w: bool,
    pub x: bool,
    pub u: bool,
}

impl Pte {
    /// The invalid entry that a freshly created leaf slot holds.
    pub open spec fn spec_invalid() -> Pte {
        Pte { ppn: 0, v: false, r: false, w: false, x: false, u: false }
    }

    /// Builds the invalid entry.
    pub fn invalid() -> (e: Pte)
        ensures
            e == Pte::spec_invalid(),
    {
        Pte { ppn: 0, v: false, r: false, w: false, x: false, u: false }
    }

    /// The valid entry for `ppn` carrying permission `p`.
    pub open spec fn spec_valid(ppn: u64, p: Perm) -> Pte {
        Pte { ppn, v: true, r: p.r, w: p.w, x: p.x, u: p.u }
    }

    /// Builds a valid entry for `ppn` with permission `p`.
    pub fn valid(ppn: u64, p: Perm) -> (e: Pte)
        ensures
            e == Pte::spec_valid(ppn, p),
    {
        Pte { ppn, v: true, r: p.r, w: p.w, x: p.x, u: p.u }
    }

    /// The same entry with the write bit forced off, as copy-on-write
    /// sharing installs it.
    pub open spec fn spec_no_w(self) -> Pte {
        Pte { w: false, ..self }
    }

    /// Clears the write bit.
    pub fn without_w(self) -> (e: Pte)
        ensures
            e == self.spec_no_w(),
    {
        Pte { w: false, ..self }
    }

    /// The same entry with the write bit set, as taking ownership of a
    /// copy-on-write page restores it.
    pub open spec fn spec_with_w(self) -> Pte {
        Pte { w: true, ..self }
    }

    /// Sets the write bit.
    pub fn with_w(self) -> (e: Pte)
        ensures
            e == self.spec_with_w(),
    {
        Pte { w: true, ..self }
    }
}

} // verus!
