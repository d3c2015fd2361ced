//! The kernel stack of a process, mapped in the kernel's address space
//! below the trampoline.
use crate::config::{KERNEL_STACK_SIZE, PAGE_SIZE, TRAMPOLINE};
use crate::memory::address::VirtAddr;
use crate::memory::address_space::{in_seg, releasable, trampoline_vpn, AddressSpace};
use crate::memory::flags::MapPermission;
use crate::memory::frame::{holders, FrameRefs, PhysMem, StackFrameAllocator};
use crate::memory::kernel_view::{kernel_stack_range, kernel_stack_top};
use crate::memory::page_table::{is_mapped, sv39_vpn, walk};
use crate::memory::segment::{page_blocks, MapType};
use crate::process::pid::Pid;
use vstd::prelude::*;

verus! {

/// The first page of the kernel stack of process `pid`: each stack takes
/// two pages, with a guard page above, counting down from the trampoline.
pub open spec fn kstack_bottom_page(pid: int) -> int {
    trampoline_vpn() - 3 * pid - 2
}

/// Process `pid` has room for a kernel stack below the trampoline.
pub open spec fn kstack_fits(pid: int) -> bool {
    0 <= pid && 3 * pid + 2 <= trampoline_vpn()
}

/// The kernel stack range of process `pid`, cut to the 39 bits of a
/// virtual address, starts and ends exactly on the two pages mapped for it:
/// the top it reports is the end of those pages.
pub proof fn lemma_kstack_pages(pid: int, bottom: u64, top: u64)
    requires
        kstack_fits(pid),
        top == kernel_stack_top(pid),
        bottom == top - KERNEL_STACK_SIZE,
    ensures
        (bottom & 0x0000_007f_ffff_ffffu64) as int == kstack_bottom_page(pid) * 4096,
        (top & 0x0000_007f_ffff_ffffu64) as int == (kstack_bottom_page(pid) + 2) * 4096,
{
    crate::bits::lemma_u64_masks();
    let d: int = 0x80_0000_0000;
    let q: int = 0x1ff_ffff;
    let b: int = kstack_bottom_page(pid);
    assert(bottom == q * d + b * 4096);
    assert(top == q * d + (b + 2) * 4096);
    vstd::arithmetic::div_mod::lemma_fundamental_div_mod_converse(bottom as int, d, q, b * 4096);
    vstd::arithmetic::div_mod::lemma_fundamental_div_mod_converse(top as int, d, q, (b + 2) * 4096);
}

/// The kernel stack of a process: two pages of the kernel's address space
/// chosen by its identifier.
pub struct KernelStack {
    pid: usize,
}

impl KernelStack {
    /// The process whose stack this is.
    pub closed spec fn pid(&self) -> usize {
        self.pid
    }

    #[verifier::type_invariant]
    spec fn fits(&self) -> bool {
        kstack_fits(self.pid as int)
    }

    /// Maps the kernel stack of process `pid_handle` in `kernel_space`:
    /// its two pages, readable and writable, with fresh frames.
    pub fn new(
        pid_handle: &Pid,
        kernel_space: &mut AddressSpace,
        mem: &mut PhysMem,
        allocator: &mut StackFrameAllocator,
    ) -> (r: Self)
        requires
            kstack_fits(pid_handle.0 as int),
            old(kernel_space).wf(old(mem).view(), old(allocator)@),
            old(allocator)@.wf(),
            old(kernel_space).pages_free(
                old(mem).view(),
                kstack_bottom_page(pid_handle.0 as int),
                kstack_bottom_page(pid_handle.0 as int) + 2,
            ),
            old(allocator)@.free_count() >= 2 + 2 * page_blocks(
                kstack_bottom_page(pid_handle.0 as int),
                kstack_bottom_page(pid_handle.0 as int) + 2,
            ),
        ensures
            r.pid() == pid_handle.0,
            final(kernel_space).wf(final(mem).view(), final(allocator)@),
            final(allocator)@.wf(),
            final(kernel_space).root() == old(kernel_space).root(),
            final(kernel_space).segs().drop_last() == old(kernel_space).segs(),
            final(kernel_space).segs().len() == old(kernel_space).segs().len() + 1,
            final(kernel_space).segs().last().start() == kstack_bottom_page(pid_handle.0 as int),
            final(kernel_space).segs().last().end() == kstack_bottom_page(pid_handle.0 as int) + 2,
            final(kernel_space).segs().last().map_type == MapType::Framed,
            final(kernel_space).segs().last().map_perm@ == 6u8,
            forall|v: u64| in_seg(final(kernel_space).segs().last(), v) ==> #[trigger] final(kernel_space).segs().last().maps_page(
                final(mem).view(),
                final(kernel_space).root(),
                v,
            ),
            forall|v: u64| !in_seg(final(kernel_space).segs().last(), v) && sv39_vpn(v) ==> #[trigger] is_mapped(
                final(mem).view(),
                final(kernel_space).root(),
                v,
            ) == is_mapped(old(mem).view(), old(kernel_space).root(), v),
    {
        let pid = pid_handle.0;
        proof {
            assert(pid <= 0x2aa_aaaa);
            assert(pid * (KERNEL_STACK_SIZE + PAGE_SIZE) == pid * 12288);
            assert(pid * 12288 <= 0x2aa_aaaa * 12288) by (nonlinear_arith)
                requires
                    pid <= 0x2aa_aaaa,
            ;
        }
        let (bottom, top) = kernel_stack_range(pid as u64);
        proof {
            lemma_kstack_pages(pid as int, bottom, top);
        }
        let rw = MapPermission::R().union(MapPermission::W());
        proof {
            crate::bits::lemma_bit_constants();
        }
        kernel_space.insert_framed_segment(VirtAddr::from(bottom), VirtAddr::from(top), rw, mem, allocator);
        KernelStack { pid }
    }

    /// The address just above the stack, where it starts growing down.
    pub fn get_top(&self) -> (r: u64)
        ensures
            r == kernel_stack_top(self.pid() as int),
    {
        proof {
            use_type_invariant(self);
        }
        let (_, top) = kernel_stack_range(self.pid as u64);
        top
    }

    /// What dropping the stack does: the first segment of `kernel_space`
    /// that starts at the stack's first page, if any, is removed and its
    /// pages unmapped; a frame goes back to the allocator when the space was
    /// its last holder.
    pub fn release(
        self,
        kernel_space: &mut AddressSpace,
        mem: &mut PhysMem,
        allocator: &mut StackFrameAllocator,
        refs: &mut FrameRefs,
    )
        requires
            old(kernel_space).wf(old(mem).view(), old(allocator)@),
            old(allocator)@.wf(),
            forall|i: int|
                0 <= i < old(kernel_space).segs().len() && (#[trigger] old(kernel_space).segs()[i]).start()
                    == kstack_bottom_page(self.pid() as int) ==> releasable(
                    old(kernel_space).segs(),
                    old(mem).view(),
                    old(kernel_space).root(),
                    old(refs)@,
                    i,
                ),
        ensures
            final(kernel_space).wf(final(mem).view(), final(allocator)@),
            final(allocator)@.wf(),
            final(kernel_space).root() == old(kernel_space).root(),
            (forall|k: int|
                0 <= k < old(kernel_space).segs().len() ==> (#[trigger] old(kernel_space).segs()[k]).start()
                    != kstack_bottom_page(self.pid() as int)) ==> *final(kernel_space) == *old(kernel_space)
                && final(mem).view() == old(mem).view() && final(allocator)@ == old(allocator)@ && final(refs)@ == old(refs)@,
            forall|i: int|
                0 <= i < old(kernel_space).segs().len() && (#[trigger] old(kernel_space).segs()[i]).start()
                    == kstack_bottom_page(self.pid() as int) && (forall|k: int|
                    0 <= k < i ==> (#[trigger] old(kernel_space).segs()[k]).start() != kstack_bottom_page(self.pid() as int))
                    ==> ({
                    let seg = old(kernel_space).segs()[i];
                    &&& final(kernel_space).segs() == old(kernel_space).segs().remove(i)
                    &&& forall|v: u64| in_seg(seg, v) ==> #[trigger] walk(final(mem).view(), final(kernel_space).root(), v) == Some(0u64)
                    &&& forall|v: u64| !in_seg(seg, v) && sv39_vpn(v) ==> #[trigger] is_mapped(
                        final(mem).view(),
                        final(kernel_space).root(),
                        v,
                    ) == is_mapped(old(mem).view(), old(kernel_space).root(), v)
                    &&& seg.map_type == MapType::Framed ==> forall|v: u64| in_seg(seg, v) ==> {
                        let f = #[trigger] seg.frames()[v];
                        &&& holders(old(refs)@, f) == 1 ==> !final(allocator)@.is_allocated(f)
                        &&& holders(old(refs)@, f) != 1 ==> final(allocator)@.is_allocated(f) && holders(final(refs)@, f)
                            == holders(old(refs)@, f) - 1
                    }
                }),
    {
        proof {
            use_type_invariant(&self);
        }
        let (bottom, top) = kernel_stack_range(self.pid as u64);
        proof {
            lemma_kstack_pages(self.pid as int, bottom, top);
        }
        let start = VirtAddr::from(bottom).floor();
        kernel_space.release_kernel_stack_segment(start, mem, allocator, refs);
    }
}

} // verus!
