//! The registers saved when the kernel switches from one task to another.
use crate::config::TRAMPOLINE;
use vstd::prelude::*;

verus! {

/// The return address, the kernel stack pointer and the 12 callee-saved
/// registers of a task that is switched out.
#[derive(Copy, Clone, Debug)]
pub struct TaskContext {
    pub ra: u64,
    pub sp: u64,
    pub s: [u64; 12],
}

impl TaskContext {
    /// A context that, once switched to, returns to user mode through
    /// `trap_return` (given as the address of that routine) on the kernel
    /// stack whose top is `kstack_ptr`.
    pub fn goto_trap_return(kstack_ptr: u64, trap_return: u64) -> (r: Self)
        ensures
            r.ra == trap_return,
            r.sp == kstack_ptr,
            forall|i: int| 0 <= i < 12 ==> #[trigger] r.s@[i] == 0,
    {
        TaskContext { ra: trap_return, sp: kstack_ptr, s: [0u64; 12] }
    }

    /// The context of the idle task: no return address, on the top of the
    /// kernel stack of application 0, which is the trampoline.
    pub fn idle() -> (r: Self)
        ensures
            r.ra == 0,
            r.sp == TRAMPOLINE,
            forall|i: int| 0 <= i < 12 ==> #[trigger] r.s@[i] == 0,
    {
        let (_, top) = crate::memory::kernel_view::kernel_stack_range(0);
        TaskContext { ra: 0, sp: top, s: [0u64; 12] }
    }
}

} // verus!
