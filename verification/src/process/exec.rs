//! Replacing the program of a process.
use crate::memory::address_space::{elf_space, image_cost, image_ok, last_load_end, AddressSpace};
use crate::memory::elf::{elf_headers_fit_spec, elf_parse};
use crate::memory::frame::{FrameAllocatorModel, PhysMem, StackFrameAllocator};
use crate::config::USER_STACK_SIZE;
use crate::process::table::{Process, ProcessTable};
use crate::syscall::syserr::{ENOENT, ENOEXEC};
use crate::trap::context::{TrapContext, SSTATUS_SPP};
use vstd::prelude::*;

verus! {

/// The bytes of the image `elf_data`, if there is one.
pub open spec fn image_bytes(elf_data: Option<&[u8]>) -> Option<Seq<u8>> {
    match elf_data {
        Some(d) => Some(d@),
        None => None,
    }
}

/// What `exec` with the image `data` gives, the memory going from `m0` to
/// `m1` and the frame allocator from `a0` to `a1`: `ENOENT` without an
/// image, `ENOEXEC` when it does not parse or cannot be placed (memory and
/// allocator unchanged in both), else the space of the program (see
/// `elf_space`) and the trap context that enters it at its entry point with
/// the stack pointer at the top of its user stack.
pub open spec fn exec_outcome(
    data: Option<Seq<u8>>,
    strampoline: u64,
    m0: Map<u64, Seq<u64>>,
    m1: Map<u64, Seq<u64>>,
    a0: FrameAllocatorModel,
    a1: FrameAllocatorModel,
    kernel_satp: u64,
    kernel_sp: u64,
    trap_handler: u64,
    sstatus: u64,
    r: Result<(AddressSpace, TrapContext), isize>,
) -> bool {
    match data {
        None => r == Err::<(AddressSpace, TrapContext), isize>(ENOENT) && a1 == a0 && m1 == m0,
        Some(d) => match elf_parse(d) {
            None => r == Err::<(AddressSpace, TrapContext), isize>(ENOEXEC) && a1 == a0 && m1 == m0,
            Some((entry, hs)) => if image_ok(hs, d.len() as int) && a0.free_capped() >= image_cost(hs) {
                r matches Ok((space, ctx)) && space.wf(m1, a1) && ctx.sepc == entry && elf_space(
                    space,
                    ctx.x@[2],
                    m1,
                    hs,
                    d,
                    strampoline,
                ) && ctx.x@ == Seq::new(
                    32,
                    |i: int|
                        if i == 2 {
                            ((last_load_end(hs, hs.len() as int) + 1) * 4096 + USER_STACK_SIZE) as u64
                        } else {
                            0u64
                        },
                ) && ctx.sstatus == sstatus && ctx.kernel_satp == kernel_satp && ctx.kernel_sp == kernel_sp
                    && ctx.trap_handler == trap_handler
            } else {
                r == Err::<(AddressSpace, TrapContext), isize>(ENOEXEC) && a1 == a0 && m1 == m0
            },
        },
    }
}

/// The new program of a process that calls `exec`: the address space built
/// from the ELF image `elf_data`, and the trap context that enters it at its
/// entry point with the stack pointer at the top of its user stack.
///
/// There is no program (`ENOENT`) when no image was found under the name,
/// and none (`ENOEXEC`) when the image does not parse as ELF or cannot be
/// placed with the frames that are free.
pub fn exec_image(
    elf_data: Option<&[u8]>,
    strampoline: u64,
    mem: &mut PhysMem,
    allocator: &mut StackFrameAllocator,
    kernel_satp: u64,
    kernel_sp: u64,
    trap_handler: u64,
    sstatus: u64,
) -> (r: Result<(AddressSpace, TrapContext), isize>)
    requires
        elf_data matches Some(d) ==> elf_headers_fit_spec(d@),
        old(allocator)@.wf(),
        strampoline < 0x100_0000_0000_0000,
        sstatus & SSTATUS_SPP == 0,
    ensures
        final(allocator)@.wf(),
        exec_outcome(
            image_bytes(elf_data),
            strampoline,
            old(mem).view(),
            final(mem).view(),
            old(allocator)@,
            final(allocator)@,
            kernel_satp,
            kernel_sp,
            trap_handler,
            sstatus,
            r,
        ),
{
    let data = match elf_data {
        Some(d) => d,
        None => return Err(ENOENT),
    };
    match AddressSpace::from_elf(data, strampoline, mem, allocator) {
        Some((space, ustack_top, entry)) => {
            let ctx = TrapContext::app_init_context(entry, ustack_top, kernel_satp, kernel_sp, trap_handler, sstatus);
            Ok((space, ctx))
        },
        None => Err(ENOEXEC),
    }
}

/// `exec` in process `pid`, which must hold one thread, of the image
/// `elf_data` found under the name `name`: what `exec_image` gives, and on
/// success the process runs the program `name`; nothing else of the process
/// changes, its open files included, and on failure nothing changes.
pub fn exec_process(
    table: &mut ProcessTable,
    pid: usize,
    name: Vec<u8>,
    elf_data: Option<&[u8]>,
    strampoline: u64,
    mem: &mut PhysMem,
    allocator: &mut StackFrameAllocator,
    kernel_satp: u64,
    kernel_sp: u64,
    trap_handler: u64,
    sstatus: u64,
) -> (r: Result<(AddressSpace, TrapContext), isize>)
    requires
        old(table).wf(),
        old(table).procs().contains_key(pid),
        old(table).procs()[pid].threads@.len() == 1,
        elf_data matches Some(d) ==> elf_headers_fit_spec(d@),
        old(allocator)@.wf(),
        strampoline < 0x100_0000_0000_0000,
        sstatus & SSTATUS_SPP == 0,
    ensures
        final(allocator)@.wf(),
        exec_outcome(
            image_bytes(elf_data),
            strampoline,
            old(mem).view(),
            final(mem).view(),
            old(allocator)@,
            final(allocator)@,
            kernel_satp,
            kernel_sp,
            trap_handler,
            sstatus,
            r,
        ),
        final(table).wf(),
        final(table).pids() == old(table).pids(),
        r is Ok ==> final(table).procs() == old(table).procs().insert(
            pid,
            Process { cmd: name, ..old(table).procs()[pid] },
        ),
        r is Err ==> final(table).procs() == old(table).procs(),
{
    let r = exec_image(elf_data, strampoline, mem, allocator, kernel_satp, kernel_sp, trap_handler, sstatus);
    if r.is_ok() {
        table.set_cmd(pid, name);
    }
    r
}

} // verus!
