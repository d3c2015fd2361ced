//! The platform-level interrupt controller.
use vstd::prelude::*;

verus! {

/// Where the PLIC of the QEMU `virt` machine is mapped.
pub const VIRT_PLIC: u64 = 0xC00_0000;

/// The PLIC whose registers start at `base_addr`.
pub struct PLIC {
    base_addr: u64,
}

impl PLIC {
    /// Where the registers start.
    pub closed spec fn base(&self) -> u64 {
        self.base_addr
    }

    /// The controller whose registers start at `base_addr`.
    pub fn new(base_addr: u64) -> (r: Self)
        ensures
            r.base() == base_addr,
    {
        PLIC { base_addr }
    }
}

/// The privilege level an interrupt context of a hart serves.
#[derive(Copy, Clone, Debug, PartialEq, Eq, Structural)]
pub enum IntrTargetPriority {
    Machine,
    Supervisor,
}

impl IntrTargetPriority {
    /// The number of the level: 0 for machine mode, 1 for supervisor mode.
    pub fn id(&self) -> (r: usize)
        ensures
            r == (if *self == IntrTargetPriority::Machine { 0usize } else { 1usize }),
    {
        match self {
            IntrTargetPriority::Machine => 0,
            IntrTargetPriority::Supervisor => 1,
        }
    }
}

} // verus!
