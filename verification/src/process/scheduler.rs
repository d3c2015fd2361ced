//! The ready queue: threads waiting for the processor, first come first
//! served.
use vstd::prelude::*;

verus! {

/// A thread, by process identifier and thread identifier.
#[derive(Copy, Clone, Debug, PartialEq, Eq, Structural)]
pub struct TaskId {
    pub pid: usize,
    pub tid: usize,
}

/// Whether a thread belongs to process `pid`.
pub open spec fn of_process(pid: usize) -> spec_fn(TaskId) -> bool {
    |t: TaskId| t.pid == pid
}

/// Whether a thread belongs to another process than `pid`.
pub open spec fn not_of_process(pid: usize) -> spec_fn(TaskId) -> bool {
    |t: TaskId| t.pid != pid
}

/// The threads ready to run, in the order they became ready.
pub struct Scheduler {
    ready: Vec<TaskId>,
}

impl View for Scheduler {
    type V = Seq<TaskId>;

    closed spec fn view(&self) -> Seq<TaskId> {
        self.ready@
    }
}

impl Scheduler {
    /// An empty queue.
    pub fn new() -> (r: Self)
        ensures
            r@ == Seq::<TaskId>::empty(),
    {
        Scheduler { ready: Vec::new() }
    }

    /// Puts `task` at the back of the queue.
    pub fn add_ready(&mut self, task: TaskId)
        ensures
            final(self)@ == old(self)@.push(task),
    {
        self.ready.push(task);
    }

    /// Takes the thread at the front of the queue, if any.
    pub fn fetch(&mut self) -> (r: Option<TaskId>)
        ensures
            old(self)@.len() == 0 ==> r is None && final(self)@ == old(self)@,
            old(self)@.len() > 0 ==> r == Some(old(self)@[0]) && final(self)@ == old(self)@.drop_first(),
    {
        if self.ready.len() == 0 {
            None
        } else {
            let t = self.ready.remove(0);
            proof {
                assert(old(self)@.remove(0) =~= old(self)@.drop_first());
            }
            Some(t)
        }
    }

    /// The number of ready threads.
    pub fn count(&self) -> (r: usize)
        ensures
            r == self@.len(),
    {
        self.ready.len()
    }

    /// Takes out every ready thread of process `pid`, in queue order; the
    /// others keep their order.
    pub fn filter(&mut self, pid: usize) -> (r: Vec<TaskId>)
        ensures
            r@ == old(self)@.filter(of_process(pid)),
            final(self)@ == old(self)@.filter(not_of_process(pid)),
    {
        let ghost s = self.ready@;
        let mut taken: Vec<TaskId> = Vec::new();
        let mut kept: Vec<TaskId> = Vec::new();
        let mut i: usize = 0;
        while i < self.ready.len()
            invariant
                self.ready@ == s,
                i <= s.len(),
                taken@ == s.take(i as int).filter(of_process(pid)),
                kept@ == s.take(i as int).filter(not_of_process(pid)),
            decreases s.len() - i,
        {
            let t = self.ready[i];
            proof {
                assert(s.take(i as int + 1).drop_last() =~= s.take(i as int));
                assert(s.take(i as int + 1).last() == t);
                reveal(Seq::filter);
            }
            if t.pid == pid {
                taken.push(t);
            } else {
                kept.push(t);
            }
            i = i + 1;
        }
        proof {
            assert(s.take(s.len() as int) =~= s);
        }
        self.ready = kept;
        taken
    }
}

} // verus!
