//! What the kernel does with a trap from user mode: the decision, from the
//! cause and the faulting address, that the trap entry then carries out.
use crate::memory::address::VirtPageNum;
use crate::memory::address_space::{seg_ok, AddressSpace};
use crate::memory::flags::MapPermission;
use crate::memory::frame::PhysMem;
use crate::memory::page_table::{pte_valid, walk};
use crate::process::signal::SignalFlags;
use vstd::prelude::*;

verus! {

/// The causes of a trap from user mode that the kernel tells apart.
#[derive(Copy, Clone, Debug, PartialEq, Eq, Structural)]
pub enum TrapCause {
    UserEnvCall,
    SupervisorTimer,
    LoadFault,
    StoreFault,
    IllegalInstruction,
    StorePageFault,
    LoadPageFault,
    InstructionPageFault,
}

/// What the kernel does about a trap.
#[derive(Copy, Clone, Debug, PartialEq, Eq, Structural)]
pub enum TrapAction {
    /// Step past the `ecall` and run the system call in registers a7, a0..a2.
    Syscall,
    /// Arm the next timer interrupt and hand the processor to the next task.
    Yield,
    /// Give the faulting page a frame of its own: it is shared copy-on-write.
    FixCow,
    /// Map the page, which the segment holding it has not mapped yet.
    FixPageMissing,
    /// Mark these signals pending for the process.
    Signal(SignalFlags),
}

/// A store fault at `stval` in a segment that may be written: the page is
/// mapped but not writable, which is how copy-on-write pages are kept.
pub open spec fn cow_fault(mem: Map<u64, Seq<u64>>, root: u64, stval: u64) -> bool {
    walk(mem, root, stval / 4096) matches Some(e) && pte_valid(e) && e & 4 == 0
}

/// Some segment of the space holds `stval` with permission `perm` and U:
/// the access was allowed, and faulted only for want of a mapping.
pub open spec fn allowed(space: AddressSpace, stval: u64, perm: u8) -> bool {
    exists|i: int|
        0 <= i < space.segs().len() && #[trigger] space.segs()[i].start() * 4096 <= stval < space.segs()[i].end() * 4096
            && space.segs()[i].map_perm@ & (perm | 16u8) == (perm | 16u8)
}

/// The action for a trap of `cause` at address `stval` (the faulting
/// address for a fault) in the space `space`. Faults outside what the
/// segments allow are a segmentation fault (SIGSEGV), an illegal
/// instruction is SIGILL; a store page fault on a mapped, read-only page
/// of a writable segment is copy-on-write, else the page is missing. A
/// store page fault on a mapped page that is already writable does not
/// occur.
pub fn trap_action(cause: TrapCause, space: &AddressSpace, mem: &PhysMem, stval: u64) -> (r: TrapAction)
    requires
        forall|i: int| 0 <= i < space.segs().len() ==> seg_ok(#[trigger] space.segs()[i]),
        cause == TrapCause::StorePageFault && allowed(*space, stval, 4u8) ==> !(walk(mem.view(), space.root(), stval / 4096) matches Some(e)
            && pte_valid(e) && e & 4 != 0),
    ensures
        cause == TrapCause::UserEnvCall ==> r == TrapAction::Syscall,
        cause == TrapCause::SupervisorTimer ==> r == TrapAction::Yield,
        cause == TrapCause::LoadFault || cause == TrapCause::StoreFault || cause == TrapCause::InstructionPageFault
            ==> (r matches TrapAction::Signal(f) && f@ == 2048),
        cause == TrapCause::IllegalInstruction ==> (r matches TrapAction::Signal(f) && f@ == 16),
        cause == TrapCause::StorePageFault && allowed(*space, stval, 4u8) ==> r == (if cow_fault(
            mem.view(),
            space.root(),
            stval,
        ) {
            TrapAction::FixCow
        } else {
            TrapAction::FixPageMissing
        }),
        cause == TrapCause::StorePageFault && !allowed(*space, stval, 4u8) ==> (r matches TrapAction::Signal(f) && f@
            == 2048),
        cause == TrapCause::LoadPageFault && allowed(*space, stval, 2u8) ==> r == TrapAction::FixPageMissing,
        cause == TrapCause::LoadPageFault && !allowed(*space, stval, 2u8) ==> (r matches TrapAction::Signal(f) && f@
            == 2048),
{
    match cause {
        TrapCause::UserEnvCall => TrapAction::Syscall,
        TrapCause::SupervisorTimer => TrapAction::Yield,
        TrapCause::LoadFault | TrapCause::StoreFault | TrapCause::InstructionPageFault => TrapAction::Signal(
            SignalFlags::SIGSEGV(),
        ),
        TrapCause::IllegalInstruction => TrapAction::Signal(SignalFlags::SIGILL()),
        TrapCause::StorePageFault => {
            if space.is_page_fault(stval, MapPermission::W()) {
                let vpn = VirtPageNum(stval / 4096);
                match space.translate_vpn(mem, vpn) {
                    Some(e) => {
                        if e.valid() && !e.writable() {
                            TrapAction::FixCow
                        } else {
                            TrapAction::FixPageMissing
                        }
                    },
                    None => TrapAction::FixPageMissing,
                }
            } else {
                TrapAction::Signal(SignalFlags::SIGSEGV())
            }
        },
        TrapCause::LoadPageFault => {
            if space.is_page_fault(stval, MapPermission::R()) {
                TrapAction::FixPageMissing
            } else {
                TrapAction::Signal(SignalFlags::SIGSEGV())
            }
        },
    }
}

} // verus!
