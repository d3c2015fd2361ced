//! The processor: the thread it runs, and the decisions that hand it from
//! one thread to the next.
use super::scheduler::{not_of_process, Scheduler, TaskId};
use crate::task::tcb::{TaskStatus, COUNT_STEP};
use vstd::hash_map::HashMapWithView;
use super::signal::{SignalFlags, SignalModel};
use super::table::{main_exited, thread_exited, Process, ProcessTable};
use vstd::prelude::*;

verus! {

/// The scheduling record of a thread: its status and its time credit.
#[derive(Copy, Clone, Debug, PartialEq, Eq, Structural)]
pub struct TaskRecord {
    pub status: TaskStatus,
    pub count: usize,
}

/// The record of thread `t` in `m`; a thread without one is ready and has
/// no credit yet, as a new thread is.
pub open spec fn record_of(m: Map<TaskId, TaskRecord>, t: TaskId) -> TaskRecord {
    if m.contains_key(t) {
        m[t]
    } else {
        TaskRecord { status: TaskStatus::Ready, count: 0 }
    }
}

/// The ready queue `q` once thread `t` exits: without the threads of its
/// process when `t` is the main thread.
pub open spec fn after_exit_queue(q: Seq<TaskId>, t: TaskId) -> Seq<TaskId> {
    if t.tid == 0 {
        q.filter(not_of_process(t.pid))
    } else {
        q
    }
}

/// Thread `t` can gain one more time slice of credit.
pub open spec fn count_room(m: Map<TaskId, TaskRecord>, t: TaskId) -> bool {
    record_of(m, t).count + COUNT_STEP <= usize::MAX
}

/// The records once thread `t` gets the processor: running, with one time
/// slice more of credit.
pub open spec fn started(m: Map<TaskId, TaskRecord>, t: TaskId) -> Map<TaskId, TaskRecord> {
    m.insert(t, TaskRecord { status: TaskStatus::Running, count: (record_of(m, t).count + COUNT_STEP) as usize })
}

/// The records once thread `t` yields: ready, its credit kept.
pub open spec fn suspended(m: Map<TaskId, TaskRecord>, t: TaskId) -> Map<TaskId, TaskRecord> {
    m.insert(t, TaskRecord { status: TaskStatus::Ready, ..record_of(m, t) })
}

/// The scheduling records of the threads, by process and thread.
pub struct TaskStates {
    by_pid: HashMapWithView<usize, HashMapWithView<usize, TaskRecord>>,
}

impl View for TaskStates {
    type V = Map<TaskId, TaskRecord>;

    closed spec fn view(&self) -> Map<TaskId, TaskRecord> {
        Map::new(
            |t: TaskId| self.by_pid@.contains_key(t.pid) && self.by_pid@[t.pid]@.contains_key(t.tid),
            |t: TaskId| self.by_pid@[t.pid]@[t.tid],
        )
    }
}

impl TaskStates {
    /// No thread has a record yet.
    pub fn new() -> (r: Self)
        ensures
            r@ == Map::<TaskId, TaskRecord>::empty(),
    {
        broadcast use vstd::std_specs::hash::group_hash_axioms;
        let r = TaskStates { by_pid: HashMapWithView::new() };
        assert(r@ =~= Map::<TaskId, TaskRecord>::empty());
        r
    }

    /// The record of thread `t` (see `record_of`).
    pub fn get(&self, t: TaskId) -> (r: TaskRecord)
        ensures
            r == record_of(self@, t),
    {
        match self.by_pid.get(&t.pid) {
            Some(inner) => match inner.get(&t.tid) {
                Some(rec) => *rec,
                None => TaskRecord { status: TaskStatus::Ready, count: 0 },
            },
            None => TaskRecord { status: TaskStatus::Ready, count: 0 },
        }
    }

    /// Sets the record of thread `t`.
    pub fn set(&mut self, t: TaskId, rec: TaskRecord)
        ensures
            final(self)@ == old(self)@.insert(t, rec),
    {
        broadcast use vstd::std_specs::hash::group_hash_axioms;
        let mut inner = match self.by_pid.remove(&t.pid) {
            Some(m) => m,
            None => HashMapWithView::new(),
        };
        inner.insert(t.tid, rec);
        self.by_pid.insert(t.pid, inner);
        assert(self@ =~= old(self)@.insert(t, rec));
    }
}

/// The thread that the processor runs, if any.
pub struct Processor {
    current: Option<TaskId>,
}

impl View for Processor {
    type V = Option<TaskId>;

    closed spec fn view(&self) -> Option<TaskId> {
        self.current
    }
}

impl Processor {
    /// A processor that runs nothing yet.
    pub fn new() -> (r: Self)
        ensures
            r@ is None,
    {
        Processor { current: None }
    }

    /// The thread it runs.
    pub fn current(&self) -> (r: Option<TaskId>)
        ensures
            r == self@,
    {
        self.current
    }

    /// Takes the thread it runs out of it: it then runs nothing.
    pub fn take_current(&mut self) -> (r: Option<TaskId>)
        ensures
            r == old(self)@,
            final(self)@ is None,
    {
        let r = self.current;
        self.current = None;
        r
    }
}

/// The process of the running thread.
pub fn current_pid(processor: &Processor) -> (r: usize)
    requires
        processor@ is Some,
    ensures
        r == processor@->0.pid,
{
    processor.current.unwrap().pid
}

/// The identifier of the running thread within its process.
pub fn current_tid(processor: &Processor) -> (r: usize)
    requires
        processor@ is Some,
    ensures
        r == processor@->0.tid,
{
    processor.current.unwrap().tid
}

/// Marks `signal` pending for the process of the running thread.
pub fn current_add_signal(table: &mut ProcessTable, processor: &Processor, signal: SignalFlags)
    requires
        old(table).wf(),
        processor@ is Some,
        old(table).procs().contains_key(processor@->0.pid),
    ensures
        final(table).wf(),
        final(table).pids() == old(table).pids(),
        final(table).procs() == old(table).procs().insert(
            processor@->0.pid,
            Process { signals: final(table).procs()[processor@->0.pid].signals, ..old(table).procs()[processor@->0.pid] },
        ),
        final(table).procs()[processor@->0.pid].signals.model() == (SignalModel {
            pending: old(table).procs()[processor@->0.pid].signals.model().pending | signal@,
            ..old(table).procs()[processor@->0.pid].signals.model()
        }),
{
    let pid = current_pid(processor);
    table.add_signal(pid, signal);
}

/// Hands the processor to the thread at the front of the ready queue, which
/// becomes running with one time slice more of credit, and returns it; with
/// no ready thread, returns `None` (the kernel then shuts
/// down) and changes nothing.
pub fn schedule(scheduler: &mut Scheduler, processor: &mut Processor, states: &mut TaskStates) -> (r: Option<TaskId>)
    requires
        old(scheduler)@.len() > 0 ==> count_room(old(states)@, old(scheduler)@[0]),
    ensures
        old(scheduler)@.len() == 0 ==> r is None && final(scheduler)@ == old(scheduler)@ && final(processor)@ == old(
            processor,
        )@ && final(states)@ == old(states)@,
        old(scheduler)@.len() > 0 ==> r == Some(old(scheduler)@[0]) && final(scheduler)@ == old(scheduler)@.drop_first()
            && final(processor)@ == r && final(states)@ == started(old(states)@, old(scheduler)@[0]),
{
    match scheduler.fetch() {
        Some(next) => {
            let rec = states.get(next);
            states.set(next, TaskRecord { status: TaskStatus::Running, count: rec.count + COUNT_STEP });
            processor.current = Some(next);
            Some(next)
        },
        None => None,
    }
}

/// Starts running applications: the first ready thread gets the processor.
pub fn run_app(scheduler: &mut Scheduler, processor: &mut Processor, states: &mut TaskStates) -> (r: Option<TaskId>)
    requires
        old(scheduler)@.len() > 0 ==> count_room(old(states)@, old(scheduler)@[0]),
    ensures
        old(scheduler)@.len() == 0 ==> r is None && final(scheduler)@ == old(scheduler)@ && final(states)@ == old(states)@,
        old(scheduler)@.len() > 0 ==> r == Some(old(scheduler)@[0]) && final(scheduler)@ == old(scheduler)@.drop_first()
            && final(processor)@ == r && final(states)@ == started(old(states)@, old(scheduler)@[0]),
{
    schedule(scheduler, processor, states)
}

/// The running thread yields: it becomes ready and goes to the back of the
/// ready queue, and the thread at the front gets the processor (possibly
/// itself), running with one time slice more of credit.
pub fn suspend_and_run_next(scheduler: &mut Scheduler, processor: &mut Processor, states: &mut TaskStates) -> (r: TaskId)
    requires
        old(processor)@ is Some,
        count_room(old(states)@, old(scheduler)@.push(old(processor)@->0)[0]),
    ensures
        r == old(scheduler)@.push(old(processor)@->0)[0],
        final(scheduler)@ == old(scheduler)@.push(old(processor)@->0).drop_first(),
        final(processor)@ == Some(r),
        final(states)@ == started(suspended(old(states)@, old(processor)@->0), r),
{
    let cur = processor.current.unwrap();
    let rec = states.get(cur);
    states.set(cur, TaskRecord { status: TaskStatus::Ready, count: rec.count });
    scheduler.add_ready(cur);
    schedule(scheduler, processor, states).unwrap()
}

/// The running thread exits with `code`. When it is the main thread of its
/// process, the process exits (its children go to `init`) and its threads
/// leave the ready queue; else only the thread's exit code is recorded.
/// Then the thread at the front of the queue gets the processor (`None`:
/// no thread is ready).
pub fn exit_and_run_next(
    table: &mut ProcessTable,
    scheduler: &mut Scheduler,
    processor: &mut Processor,
    states: &mut TaskStates,
    code: i32,
    init: usize,
) -> (r: Option<TaskId>)
    requires
        old(table).wf(),
        after_exit_queue(old(scheduler)@, old(processor)@->0).len() > 0 ==> count_room(
            old(states)@,
            after_exit_queue(old(scheduler)@, old(processor)@->0)[0],
        ),
        old(processor)@ is Some,
        old(table).procs().contains_key(old(processor)@->0.pid),
        old(processor)@->0.tid == 0 ==> ({
            let pid = old(processor)@->0.pid;
            &&& old(table).procs().contains_key(init)
            &&& old(table).procs()[init].parent is None
            &&& !old(table).procs()[init].zombie
            &&& pid != init
        }),
        old(processor)@->0.tid != 0 ==> ({
            let t = old(processor)@->0;
            t.tid < old(table).procs()[t.pid].threads@.len() && old(table).procs()[t.pid].threads@[t.tid as int] is Some
        }),
    ensures
        final(table).wf(),
        final(table).procs().dom() == old(table).procs().dom(),
        final(table).pids() == old(table).pids(),
        ({
            let t = old(processor)@->0;
            let queue = if t.tid == 0 {
                old(scheduler)@.filter(not_of_process(t.pid))
            } else {
                old(scheduler)@
            };
            &&& t.tid == 0 ==> main_exited(old(table).procs(), final(table).procs(), t.pid, code, init)
            &&& t.tid != 0 ==> thread_exited(old(table).procs(), final(table).procs(), t.pid, t.tid, code)
            &&& queue.len() == 0 ==> r is None && final(scheduler)@ == queue && final(processor)@ is None && final(states)@
                == old(states)@
            &&& queue.len() > 0 ==> r == Some(queue[0]) && final(scheduler)@ == queue.drop_first() && final(processor)@ == r
                && final(states)@ == started(old(states)@, queue[0])
        }),
{
    let cur = processor.take_current().unwrap();
    if cur.tid == 0 {
        table.exit_main(cur.pid, code, init);
        let _gone = scheduler.filter(cur.pid);
    } else {
        table.exit_slave(cur.pid, cur.tid, code);
    }
    schedule(scheduler, processor, states)
}

} // verus!
