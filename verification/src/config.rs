//! Kernel-wide constants: page geometry, the fixed virtual layout and sizes.
use vstd::prelude::*;

verus! {

/// Bytes in one page.
pub const PAGE_SIZE: u64 = 4096;
/// log2 of `PAGE_SIZE`.
pub const PAGE_SIZE_BITS: u64 = 12;
/// One mebibyte.
pub const MB: usize = 1048576;

/// The trampoline page is the highest page of every address space.
pub const TRAMPOLINE: u64 = 0xffff_ffff_ffff_f000;
/// The trap context of the main thread sits right below the trampoline.
pub const TRAP_CONTEXT: u64 = 0xffff_ffff_ffff_e000;

/// End of the physical memory that the frame allocator manages.
pub const MEMORY_END: u64 = 0x8f00_0000;
/// Size of the kernel heap (64 MiB).
pub const KERNEL_HEAP_SIZE: usize = 0x400_0000;

/// Size of one kernel stack.
pub const KERNEL_STACK_SIZE: u64 = 8192;
/// Size of one user stack.
pub const USER_STACK_SIZE: u64 = 8192;
/// Highest number of threads that one process may hold.
pub const MAX_THREADS: usize = 64;
/// Number of applications that the static stack arrays are sized for.
pub const MAX_APP_NUM: usize = 16;

/// Value written at the bottom of every stack to detect an overflow.
pub const CANARY_MAGIC_NUMBER: u8 = 0xcc;

/// Physical address width of SV39.
pub const PA_WIDTH_SV39: u64 = 56;
/// Virtual address width of SV39.
pub const VA_WIDTH_SV39: u64 = 39;
/// Width of a physical page number under SV39.
pub const PPN_WIDTH_SV39: u64 = 44;

/// The device register regions (start, length) that the kernel maps: the
/// UART, then the eight VirtIO slots of the QEMU `virt` machine.
pub open spec fn mmio_spec() -> Seq<(u64, u64)> {
    seq![(0x1000_0000u64, 0x1000u64), (0x1000_1000u64, 0x8000u64)]
}

/// The device register regions, as `mmio_spec` lists them.
pub fn mmio_regions() -> (r: Vec<(u64, u64)>)
    ensures
        r@ == mmio_spec(),
{
    let mut r: Vec<(u64, u64)> = Vec::new();
    r.push((0x1000_0000, 0x1000));
    r.push((0x1000_1000, 0x8000));
    assert(r@ =~= mmio_spec());
    r
}

/// Checks that the layout constants agree with each other.
pub proof fn lemma_layout_constants()
    ensures
        TRAMPOLINE == u64::MAX - PAGE_SIZE + 1,
        TRAP_CONTEXT == TRAMPOLINE - PAGE_SIZE,
        PAGE_SIZE == 1u64 << PAGE_SIZE_BITS,
        KERNEL_HEAP_SIZE == 64 * MB,
        PPN_WIDTH_SV39 == PA_WIDTH_SV39 - PAGE_SIZE_BITS,
{
    crate::bits::lemma_bit_constants();
}

} // verus!
