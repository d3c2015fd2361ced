//! The mutable part of a thread control block.
use super::context::TaskContext;
use super::uresource::{spec_ustack_bottom, TCBUserResource};
use crate::config::{MAX_THREADS, USER_STACK_SIZE};
use crate::memory::address::PhysPageNum;
use vstd::prelude::*;

verus! {

/// The scheduling state of a thread.
#[derive(Copy, Clone, Debug, PartialEq, Eq, Structural)]
pub enum TaskStatus {
    Ready,
    Running,
    Died,
    Blocked,
    Interruptable,
    Uninterruptable,
}

/// Time credit a thread gains each time it is scheduled: 60 is the least
/// common multiple of the priorities 1 to 5.
pub const COUNT_STEP: usize = 60;

/// The parts of a thread that change while it runs.
pub struct TCBInner {
    pub resource: Option<TCBUserResource>,
    pub priority: u8,
    pub count: usize,
    pub trap_ctx_ppn: PhysPageNum,
    pub task_ctx: TaskContext,
    pub task_status: TaskStatus,
    pub exit_code: Option<i32>,
}

impl TCBInner {
    /// A ready thread with these resources, trap context frame and switch
    /// context; priority 3 and no time credit yet.
    pub fn new(resource: TCBUserResource, trap_ctx_ppn: PhysPageNum, task_ctx: TaskContext) -> (r: Self)
        ensures
            r.resource == Some(resource),
            r.trap_ctx_ppn == trap_ctx_ppn,
            r.task_status == TaskStatus::Ready,
            r.exit_code is None,
            r.priority == 3,
            r.count == 0,
    {
        TCBInner {
            resource: Some(resource),
            priority: 3,
            count: 0,
            trap_ctx_ppn,
            task_ctx,
            task_status: TaskStatus::Ready,
            exit_code: None,
        }
    }

    /// The thread id.
    pub fn tid(&self) -> (r: usize)
        requires
            self.resource is Some,
        ensures
            r == self.resource->0.tid,
    {
        match &self.resource {
            Some(res) => res.tid,
            None => 0,
        }
    }

    /// Records the exit code of the thread.
    pub fn set_exit_code(&mut self, exit_code: i32)
        ensures
            final(self).exit_code == Some(exit_code),
            final(self).resource == old(self).resource,
            final(self).task_status == old(self).task_status,
            final(self).count == old(self).count,
    {
        self.exit_code = Some(exit_code);
    }

    /// The exit code, once the thread exited.
    pub fn exit_code(&self) -> (r: Option<i32>)
        ensures
            r == self.exit_code,
    {
        self.exit_code
    }

    /// The base of the user stacks.
    pub fn ustack_base(&self) -> (r: u64)
        requires
            self.resource is Some,
        ensures
            r == self.resource->0.ustack_base,
    {
        match &self.resource {
            Some(res) => res.ustack_base,
            None => 0,
        }
    }

    /// Moves the base of the user stacks (a new program image was loaded).
    pub fn set_ustack_base(&mut self, ustack_base: u64)
        requires
            old(self).resource is Some,
        ensures
            final(self).resource == Some(TCBUserResource { ustack_base, ..old(self).resource->0 }),
            final(self).exit_code == old(self).exit_code,
            final(self).task_status == old(self).task_status,
    {
        match &mut self.resource {
            Some(res) => {
                res.ustack_base = ustack_base;
            },
            None => {},
        }
    }

    /// The top of the thread's user stack.
    pub fn ustack_top(&self) -> (r: u64)
        requires
            self.resource is Some,
            self.resource->0.tid < MAX_THREADS,
            spec_ustack_bottom(self.resource->0.ustack_base as int, self.resource->0.tid as int) + USER_STACK_SIZE
                <= u64::MAX,
        ensures
            r == spec_ustack_bottom(self.resource->0.ustack_base as int, self.resource->0.tid as int)
                + USER_STACK_SIZE,
    {
        match &self.resource {
            Some(res) => res.ustack_top(),
            None => 0,
        }
    }

    /// Changes the scheduling state.
    pub fn set_status(&mut self, task_status: TaskStatus)
        ensures
            final(self).task_status == task_status,
            final(self).exit_code == old(self).exit_code,
            final(self).resource == old(self).resource,
            final(self).count == old(self).count,
    {
        self.task_status = task_status;
    }

    /// Adds one time slice of credit.
    pub fn inc_count(&mut self)
        requires
            old(self).count + COUNT_STEP <= usize::MAX,
        ensures
            final(self).count == old(self).count + COUNT_STEP,
            final(self).task_status == old(self).task_status,
            final(self).exit_code == old(self).exit_code,
    {
        self.count = self.count + COUNT_STEP;
    }

    /// The frame of the thread's trap context.
    pub fn trap_ctx_ppn(&self) -> (r: PhysPageNum)
        ensures
            r == self.trap_ctx_ppn,
    {
        self.trap_ctx_ppn
    }

    /// Moves the thread's trap context to another frame.
    pub fn set_trap_ctx_ppn(&mut self, trap_ctx_ppn: PhysPageNum)
        ensures
            final(self).trap_ctx_ppn == trap_ctx_ppn,
            final(self).task_status == old(self).task_status,
            final(self).exit_code == old(self).exit_code,
    {
        self.trap_ctx_ppn = trap_ctx_ppn;
    }
}

} // verus!
