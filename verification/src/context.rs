//! Saved register state of a task, as the context-switch path stores and
//! reloads it.

use vstd::prelude::*;

verus! {

/// The callee-saved registers of a suspended task, plus the slot the
/// switch path uses to hand the context between harts.
#[derive(Clone, Copy, Debug)]
pub struct TaskContext {
    /// Return address taken on switch-in.
    pub ra: usize,
    /// Stack pointer.
    pub sp: usize,
    /// s0 through s11.
    pub s: [usize; 12],
    /// Hand-over slot written atomically by the switch path.
    pub lock: usize,
}

impl TaskContext {
    /// The all-zero context of a task that was never scheduled.
    pub fn zero_init() -> (c: TaskContext)
        ensures
            c.ra == 0,
            c.sp == 0,
            forall|i: int| 0 <= i < 12 ==> c.s[i] == 0,
            c.lock == 0,
    {
        TaskContext { ra: 0, sp: 0, s: [0; 12], lock: 0 }
    }

    /// The context that enters the trap-return path at `trap_return` on
    /// the kernel stack `kstack_ptr` when first switched in.
    pub fn goto_trap_return(kstack_ptr: usize, trap_return: usize) -> (c: TaskContext)
        ensures
            c.ra == trap_return,
            c.sp == kstack_ptr,
            forall|i: int| 0 <= i < 12 ==> c.s[i] == 0,
            c.lock == 0,
    {
        TaskContext { ra: trap_return, sp: kstack_ptr, s: [0; 12], lock: 0 }
    }
}

} // verus!
