//! The task context: the registers that a switch between tasks saves and restores.

use vstd::prelude::*;

verus! {

/// The registers that the callee of a switch must keep.
#[derive(Clone, Copy, Debug)]
pub struct TaskContext {
    /// The return address.
    pub ra: u64,
    /// The stack pointer.
    pub sp: u64,
    /// The saved registers `s0` to `s11`.
    pub s: [u64; 12],
}

impl TaskContext {
    /// A task context of all zero registers.
    pub fn zero_init() -> (cx: Self)
        ensures
            cx.ra == 0,
            cx.sp == 0,
            cx.s@ == Seq::new(12, |i: int| 0u64),
    {
        let cx = TaskContext { ra: 0, sp: 0, s: [0u64; 12] };
        assert(cx.s@ =~= Seq::new(12, |i: int| 0u64));
        cx
    }

    /// The task context of a task that has not run yet: a switch to it returns to
    /// `trap_return`, the address of the way back to user mode, on the kernel stack
    /// `kstack_ptr`.
    pub fn goto_trap_return(kstack_ptr: u64, trap_return: u64) -> (cx: Self)
        ensures
            cx.ra == trap_return,
            cx.sp == kstack_ptr,
            cx.s@ == Seq::new(12, |i: int| 0u64),
    {
        let cx = TaskContext { ra: trap_return, sp: kstack_ptr, s: [0u64; 12] };
        assert(cx.s@ =~= Seq::new(12, |i: int| 0u64));
        cx
    }
}

} // verus!
