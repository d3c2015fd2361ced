//! The layout of the kernel image in memory, as the linker placed it.
use crate::config::{KERNEL_STACK_SIZE, PAGE_SIZE, TRAMPOLINE};
use core::ops::Range;
use vstd::prelude::*;

verus! {

/// The start and end addresses of the sections of the kernel image.
pub struct KernelView {
    pub kernel_start: u64,
    pub stext: u64,
    pub strampoline: u64,
    pub etext: u64,
    pub srodata: u64,
    pub erodata: u64,
    pub sdata: u64,
    pub edata: u64,
    pub sbss_with_stack: u64,
    pub sbss: u64,
    pub ebss: u64,
    pub kernel_end: u64,
}

/// The top and bottom of the kernel stack of application `app_id`: stacks
/// stand below the trampoline, each followed by a guard page.
pub open spec fn kernel_stack_top(app_id: int) -> int {
    TRAMPOLINE - app_id * (KERNEL_STACK_SIZE + PAGE_SIZE)
}

impl KernelView {
    /// The whole image.
    pub fn kernel_range(&self) -> (r: Range<u64>)
        ensures
            r.start == self.kernel_start,
            r.end == self.kernel_end,
    {
        self.kernel_start..self.kernel_end
    }

    /// The code.
    pub fn text_range(&self) -> (r: Range<u64>)
        ensures
            r.start == self.stext,
            r.end == self.etext,
    {
        self.stext..self.etext
    }

    /// The read-only data.
    pub fn rodata_range(&self) -> (r: Range<u64>)
        ensures
            r.start == self.srodata,
            r.end == self.erodata,
    {
        self.srodata..self.erodata
    }

    /// The initialised data.
    pub fn data_range(&self) -> (r: Range<u64>)
        ensures
            r.start == self.sdata,
            r.end == self.edata,
    {
        self.sdata..self.edata
    }

    /// The zero-initialised data, without the boot stack below it.
    pub fn bss_range(&self) -> (r: Range<u64>)
        ensures
            r.start == self.sbss,
            r.end == self.ebss,
    {
        self.sbss..self.ebss
    }

    /// The bottom and top of the kernel stack of application `app_id`.
    pub fn kernel_stack_range(&self, app_id: u64) -> (r: (u64, u64))
        requires
            kernel_stack_top(app_id as int) >= KERNEL_STACK_SIZE,
        ensures
            r.1 == kernel_stack_top(app_id as int),
            r.0 == r.1 - KERNEL_STACK_SIZE,
    {
        kernel_stack_range(app_id)
    }
}

/// The bottom and top of the kernel stack of application `app_id`.
pub fn kernel_stack_range(app_id: u64) -> (r: (u64, u64))
    requires
        kernel_stack_top(app_id as int) >= KERNEL_STACK_SIZE,
    ensures
        r.1 == kernel_stack_top(app_id as int),
        r.0 == r.1 - KERNEL_STACK_SIZE,
{
    proof {
        assert(app_id * (KERNEL_STACK_SIZE + PAGE_SIZE) <= TRAMPOLINE);
    }
    let top = TRAMPOLINE - app_id * (KERNEL_STACK_SIZE + PAGE_SIZE);
    let bottom = top - KERNEL_STACK_SIZE;
    (bottom, top)
}

/// Kernel stacks of different applications do not overlap, and a guard page
/// lies between neighbours.
pub proof fn lemma_kernel_stacks_apart(a: int, b: int)
    requires
        0 <= a < b,
    ensures
        kernel_stack_top(b) + PAGE_SIZE <= kernel_stack_top(a) - KERNEL_STACK_SIZE,
{
    assert((b - a) * (KERNEL_STACK_SIZE + PAGE_SIZE) >= KERNEL_STACK_SIZE + PAGE_SIZE) by (nonlinear_arith)
        requires
            b - a >= 1,
    ;
    assert(b * (KERNEL_STACK_SIZE + PAGE_SIZE) - a * (KERNEL_STACK_SIZE + PAGE_SIZE) == (b - a) * (
    KERNEL_STACK_SIZE + PAGE_SIZE)) by (nonlinear_arith);
}

} // verus!
