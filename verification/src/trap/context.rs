//! The registers of a user task saved on a trap, and where to return.
use vstd::prelude::*;

verus! {

/// Bit of `sstatus` that holds the privilege level a trap came from.
pub const SSTATUS_SPP: u64 = 0x100;

/// The saved state of a user task: its 32 general registers, `sstatus`, the
/// address to return to, and what the trap entry needs to reach the kernel.
#[derive(Copy, Clone)]
pub struct TrapContext {
    pub x: [u64; 32],
    pub sstatus: u64,
    pub sepc: u64,
    pub kernel_satp: u64,
    pub kernel_sp: u64,
    pub trap_handler: u64,
}

impl TrapContext {
    /// Sets the stack pointer (register x2).
    pub fn set_sp(&mut self, sp: u64)
        ensures
            final(self).x@ == old(self).x@.update(2, sp),
            final(self).sstatus == old(self).sstatus,
            final(self).sepc == old(self).sepc,
            final(self).kernel_satp == old(self).kernel_satp,
            final(self).kernel_sp == old(self).kernel_sp,
            final(self).trap_handler == old(self).trap_handler,
    {
        self.x[2] = sp;
    }

    /// The context in which an application starts: all registers zero but
    /// the stack pointer, returning to `entry` in user mode. `sstatus` is the
    /// current value of the register, whose previous-privilege bit must say
    /// user mode.
    pub fn app_init_context(
        entry: u64,
        sp: u64,
        kernel_satp: u64,
        kernel_sp: u64,
        trap_handler: u64,
        sstatus: u64,
    ) -> (r: Self)
        requires
            sstatus & SSTATUS_SPP == 0,
        ensures
            r.x@ == Seq::new(32, |i: int| if i == 2 { sp } else { 0u64 }),
            r.sstatus == sstatus,
            r.sepc == entry,
            r.kernel_satp == kernel_satp,
            r.kernel_sp == kernel_sp,
            r.trap_handler == trap_handler,
    {
        let mut ctx = TrapContext {
            x: [0u64; 32],
            sstatus,
            sepc: entry,
            kernel_satp,
            kernel_sp,
            trap_handler,
        };
        ctx.set_sp(sp);
        assert(ctx.x@ =~= Seq::new(32, |i: int| if i == 2 { sp } else { 0u64 }));
        ctx
    }
}

} // verus!
