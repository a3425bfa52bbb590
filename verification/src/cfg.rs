//! Layout constants of the Sv39 virtual-memory scheme and of the on-disk
//! filesystem, together with the classification of critical pages.

use vstd::prelude::*;

verus! {

/// Size of one physical or virtual page in bytes.
pub const PAGE_SIZE: usize = 4096;

/// Exclusive upper bound of virtual page numbers: Sv39 has 39-bit virtual
/// addresses and a 12-bit page offset, leaving 27 bits of page number.
pub const VPN_LIMIT: usize = 0x8000000;

/// Virtual page number of the trampoline page, the topmost page of the
/// 39-bit address space.
pub const TRAMPOLINE_VPN: usize = 0x8000000 - 1;

/// Virtual page number of the trap-context page, one page below the
/// trampoline.
pub const TRAP_CONTEXT_VPN: usize = 0x8000000 - 2;

/// Size of a user stack in bytes.
pub const USER_STACK_SIZE: usize = 8192;

/// Size of one disk block in bytes.
pub const BLOCK_SZ: usize = 512;

/// Size of one on-disk directory entry in bytes.
pub const DIRENT_SZ: usize = 32;

/// Longest directory-entry name in bytes.
pub const NAME_LEN: usize = 27;

/// A critical page may never be unmapped nor lazily backed: the trampoline
/// and the trap context live there.
pub open spec fn spec_is_critical(vpn: usize) -> bool {
    vpn == TRAMPOLINE_VPN || vpn == TRAP_CONTEXT_VPN
}

/// Decides whether `vpn` is one of the critical pages.
pub fn is_critical(vpn: usize) -> (r: bool)
    ensures
        r == spec_is_critical(vpn),
{
    vpn == TRAMPOLINE_VPN || vpn == TRAP_CONTEXT_VPN
}

/// The virtual page number holding a byte address: the address divided by
/// the page size, wrapped into the 39-bit space. An address at or beyond
/// the 512 GiB mark keeps only its low 39 bits, as the Sv39 translation
/// hardware reads only those; callers that must refuse such addresses
/// check the bound themselves before rounding.
pub open spec fn spec_vpn_of(addr: int) -> int {
    (addr / (PAGE_SIZE as int)) % (VPN_LIMIT as int)
}

/// The first page number at or above a virtual address, wrapped into the
/// 39-bit space like `spec_vpn_of`.
pub open spec fn spec_vpn_up(addr: int) -> int {
    ((addr + PAGE_SIZE - 1) / (PAGE_SIZE as int)) % (VPN_LIMIT as int)
}

/// Rounds a virtual address down to its page number, keeping the low 39
/// bits only.
pub fn vpn_floor(addr: usize) -> (r: usize)
    ensures
        r == spec_vpn_of(addr as int),
        r < VPN_LIMIT,
{
    (addr / PAGE_SIZE) % VPN_LIMIT
}

/// Rounds a virtual address up to the first page number at or above it.
pub fn vpn_ceil(addr: usize) -> (r: usize)
    ensures
        r == spec_vpn_up(addr as int),
        r < VPN_LIMIT,
{
    let q: usize = addr / PAGE_SIZE;
    let rem: usize = addr % PAGE_SIZE;
    let up: usize = if rem != 0 {
        q + 1
    } else {
        q
    };
    proof {
        assert(up == (addr + PAGE_SIZE - 1) / (PAGE_SIZE as int)) by (nonlinear_arith)
            requires
                q == addr as int / 4096,
                rem == addr as int % 4096,
                up == if rem != 0 { q + 1int } else { q as int },
                PAGE_SIZE == 4096,
        ;
    }
    up % VPN_LIMIT
}

} // verus!
