//! Nested masking of supervisor interrupts on one hart: the first entry
//! remembers whether interrupts were enabled, the last exit enables them
//! again if they were.
use crate::process::scheduler::{Scheduler, TaskId};
use std::collections::VecDeque;
use vstd::prelude::*;

verus! {

/// How deep the masked sections are nested, and whether interrupts were
/// enabled before the outermost one.
#[derive(Copy, Clone, Debug, PartialEq, Eq, Structural)]
pub struct IntrMaskingInfo {
    pub nested_level: usize,
    pub sie_before_masking: bool,
}

impl IntrMaskingInfo {
    /// The state after entering a section while the enable bit reads `sie`.
    pub open spec fn entered(self, sie: bool) -> IntrMaskingInfo {
        IntrMaskingInfo {
            nested_level: (self.nested_level + 1) as usize,
            sie_before_masking: if self.nested_level == 0 {
                sie
            } else {
                self.sie_before_masking
            },
        }
    }

    /// The state after leaving a section, and whether the enable bit must
    /// be set again.
    pub open spec fn exited(self) -> (IntrMaskingInfo, bool) {
        let level = (self.nested_level - 1) as usize;
        (IntrMaskingInfo { nested_level: level, ..self }, level == 0 && self.sie_before_masking)
    }

    /// Outside any masked section.
    pub fn new() -> (r: Self)
        ensures
            r.nested_level == 0,
            !r.sie_before_masking,
    {
        IntrMaskingInfo { nested_level: 0, sie_before_masking: false }
    }

    /// Enters a masked section while the interrupt-enable bit reads `sie`;
    /// the caller clears the bit. The outermost entry remembers `sie`.
    pub fn enter(&mut self, sie: bool)
        requires
            old(self).nested_level < usize::MAX,
        ensures
            *final(self) == old(self).entered(sie),
    {
        if self.nested_level == 0 {
            self.sie_before_masking = sie;
        }
        self.nested_level = self.nested_level + 1;
    }

    /// Leaves a masked section; returns whether the caller must set the
    /// interrupt-enable bit again: when the outermost section ends and the
    /// bit was set before it.
    pub fn exit(&mut self) -> (set_sie: bool)
        requires
            old(self).nested_level > 0,
        ensures
            (*final(self), set_sie) == old(self).exited(),
    {
        self.nested_level = self.nested_level - 1;
        self.nested_level == 0 && self.sie_before_masking
    }
}

/// An outermost masked section gives back the interrupt state it found:
/// entered with the enable bit reading `sie` and then left, it asks to set
/// the bit again exactly when `sie` was set, and no section stays open.
pub proof fn lemma_outer_section_restores(s: IntrMaskingInfo, sie: bool)
    requires
        s.nested_level == 0,
    ensures
        s.entered(sie).exited().1 == sie,
        s.entered(sie).exited().0.nested_level == 0,
{
}

/// An inner masked section changes nothing: entered and left inside
/// another one, it leaves the state as it was and never asks to set the
/// enable bit, whatever the bit read on entry.
pub proof fn lemma_inner_section_neutral(s: IntrMaskingInfo, sie: bool)
    requires
        0 < s.nested_level < usize::MAX,
    ensures
        s.entered(sie).exited() == (s, false),
{
}

/// A condition variable of the kernel: the threads that wait on it, in the
/// order they started waiting.
pub struct KCondvar {
    pub wait_queue: VecDeque<TaskId>,
}

impl KCondvar {
    /// No thread waits.
    pub fn new() -> (r: Self)
        ensures
            r.wait_queue@ == Seq::<TaskId>::empty(),
    {
        KCondvar { wait_queue: VecDeque::new() }
    }

    /// Wakes the thread that waited longest, if any: it becomes ready.
    pub fn signal(&mut self, scheduler: &mut Scheduler)
        ensures
            old(self).wait_queue@.len() == 0 ==> final(self).wait_queue@ == old(self).wait_queue@ && final(scheduler)@
                == old(scheduler)@,
            old(self).wait_queue@.len() > 0 ==> final(self).wait_queue@ == old(self).wait_queue@.drop_first()
                && final(scheduler)@ == old(scheduler)@.push(old(self).wait_queue@[0]),
    {
        if let Some(task) = self.wait_queue.pop_front() {
            scheduler.add_ready(task);
        }
    }

    /// The running thread `current` starts waiting; the caller then hands
    /// the processor on without queueing it as ready.
    pub fn wait_no_sched(&mut self, current: TaskId)
        ensures
            final(self).wait_queue@ == old(self).wait_queue@.push(current),
    {
        self.wait_queue.push_back(current);
    }
}

} // verus!
