//! Fixed-size stacks with a canary at their lowest byte.
use crate::config::{CANARY_MAGIC_NUMBER, KERNEL_STACK_SIZE, USER_STACK_SIZE};
use vstd::prelude::*;

verus! {

/// A new stack of `size` bytes: zeros, with the canary at the bottom.
fn canaried_stack(size: usize) -> (r: Vec<u8>)
    requires
        size > 0,
    ensures
        r@.len() == size,
        r@[0] == CANARY_MAGIC_NUMBER,
        forall|i: int| 1 <= i < size ==> #[trigger] r@[i] == 0,
{
    let mut data: Vec<u8> = Vec::new();
    data.push(CANARY_MAGIC_NUMBER);
    let mut i: usize = 1;
    while i < size
        invariant
            1 <= i <= size,
            data@.len() == i,
            data@[0] == CANARY_MAGIC_NUMBER,
            forall|k: int| 1 <= k < i ==> #[trigger] data@[k] == 0,
        decreases size - i,
    {
        data.push(0);
        i = i + 1;
    }
    data
}

/// A kernel stack; its lowest byte holds a canary that an overflow would
/// overwrite.
pub struct KernelStack {
    pub data: Vec<u8>,
}

impl KernelStack {
    /// A cleared stack with its canary set.
    pub fn new() -> (r: Self)
        ensures
            r.data@.len() == KERNEL_STACK_SIZE,
            r.data@[0] == CANARY_MAGIC_NUMBER,
            forall|i: int| 1 <= i < KERNEL_STACK_SIZE ==> #[trigger] r.data@[i] == 0,
    {
        KernelStack { data: canaried_stack(KERNEL_STACK_SIZE as usize) }
    }

    /// Whether the canary is intact (no overflow was seen).
    pub fn check_canary(&self) -> (r: bool)
        ensures
            r == (self.data@.len() > 0 && self.data@[0] == CANARY_MAGIC_NUMBER),
    {
        self.data.len() > 0 && self.data[0] == CANARY_MAGIC_NUMBER
    }
}

/// A user stack; its lowest byte holds a canary.
pub struct UserStack {
    pub data: Vec<u8>,
}

impl UserStack {
    /// A cleared stack with its canary set.
    pub fn new() -> (r: Self)
        ensures
            r.data@.len() == USER_STACK_SIZE,
            r.data@[0] == CANARY_MAGIC_NUMBER,
            forall|i: int| 1 <= i < USER_STACK_SIZE ==> #[trigger] r.data@[i] == 0,
    {
        UserStack { data: canaried_stack(USER_STACK_SIZE as usize) }
    }

    /// Whether the canary is intact (no overflow was seen).
    pub fn check_canary(&self) -> (r: bool)
        ensures
            r == (self.data@.len() > 0 && self.data@[0] == CANARY_MAGIC_NUMBER),
    {
        self.data.len() > 0 && self.data[0] == CANARY_MAGIC_NUMBER
    }
}

} // verus!
