//! Where the user stack and trap context of each thread of a process lie.
use crate::config::{MAX_THREADS, PAGE_SIZE, TRAP_CONTEXT, USER_STACK_SIZE};
use vstd::prelude::*;

verus! {

/// The bottom of the trap context page of thread `tid`: the pages below the
/// main thread's one, one per thread.
pub open spec fn spec_trap_ctx_bottom(tid: int) -> int {
    TRAP_CONTEXT - tid * PAGE_SIZE
}

/// The bottom of the user stack of thread `tid`: stacks stand above
/// `ustack_base`, each followed by a guard page.
pub open spec fn spec_ustack_bottom(ustack_base: int, tid: int) -> int {
    ustack_base + tid * (PAGE_SIZE + USER_STACK_SIZE)
}

/// The bottom of the trap context page of thread `tid`.
pub fn trap_ctx_bottom(tid: usize) -> (r: u64)
    requires
        tid < MAX_THREADS,
    ensures
        r == spec_trap_ctx_bottom(tid as int),
{
    TRAP_CONTEXT - (tid as u64) * PAGE_SIZE
}

/// The bottom of the user stack of thread `tid`.
pub fn ustack_bottom(ustack_base: u64, tid: usize) -> (r: u64)
    requires
        tid < MAX_THREADS,
        spec_ustack_bottom(ustack_base as int, tid as int) <= u64::MAX,
    ensures
        r == spec_ustack_bottom(ustack_base as int, tid as int),
{
    ustack_base + (tid as u64) * (PAGE_SIZE + USER_STACK_SIZE)
}

/// The per-thread user resources: the thread id and the base above which
/// the user stacks of the process lie.
#[derive(Copy, Clone, Debug)]
pub struct TCBUserResource {
    pub tid: usize,
    pub ustack_base: u64,
}

impl TCBUserResource {
    /// The base of the user stacks.
    pub fn ustack_base(&self) -> (r: u64)
        ensures
            r == self.ustack_base,
    {
        self.ustack_base
    }

    /// The top of this thread's user stack.
    pub fn ustack_top(&self) -> (r: u64)
        requires
            self.tid < MAX_THREADS,
            spec_ustack_bottom(self.ustack_base as int, self.tid as int) + USER_STACK_SIZE <= u64::MAX,
        ensures
            r == spec_ustack_bottom(self.ustack_base as int, self.tid as int) + USER_STACK_SIZE,
    {
        ustack_bottom(self.ustack_base, self.tid) + USER_STACK_SIZE
    }

    /// The address at which user code sees this thread's trap context.
    pub fn trap_ctx_uptr(&self) -> (r: u64)
        requires
            self.tid < MAX_THREADS,
        ensures
            r == spec_trap_ctx_bottom(self.tid as int),
    {
        trap_ctx_bottom(self.tid)
    }
}

/// The stacks of two threads do not overlap and a guard page lies between.
pub proof fn lemma_ustacks_apart(base: int, a: int, b: int)
    requires
        0 <= a < b,
    ensures
        spec_ustack_bottom(base, a) + USER_STACK_SIZE + PAGE_SIZE <= spec_ustack_bottom(base, b),
{
    assert((b - a) * (PAGE_SIZE + USER_STACK_SIZE) >= PAGE_SIZE + USER_STACK_SIZE) by (nonlinear_arith)
        requires
            b - a >= 1,
    ;
    assert(b * (PAGE_SIZE + USER_STACK_SIZE) - a * (PAGE_SIZE + USER_STACK_SIZE) == (b - a) * (PAGE_SIZE
        + USER_STACK_SIZE)) by (nonlinear_arith);
}

} // verus!
