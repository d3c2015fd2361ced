//! The thread system calls, as decisions on the process table, the ready
//! queue and the processor.
use crate::config::{MAX_THREADS, USER_STACK_SIZE};
use crate::process::processor::{current_pid, current_tid, exit_and_run_next, suspend_and_run_next, Processor, after_exit_queue, count_room, started, suspended, TaskStates};
use crate::process::scheduler::{not_of_process, Scheduler, TaskId};
use crate::process::table::{main_exited, thread_exited, ProcessTable};
use crate::task::uresource::{spec_ustack_bottom, TCBUserResource};
use crate::trap::context::{TrapContext, SSTATUS_SPP};
use vstd::prelude::*;

verus! {

/// Creates a thread in the calling process that starts at `entry` with
/// `arg` in register a0, on its own user stack above `ustack_base`; it gets
/// a thread identifier and becomes ready. `kernel_satp`, `kstack_top`,
/// `trap_handler` and `sstatus` go into its trap context as they do for
/// every application. Returns the identifier and that trap context.
pub fn sys_thread_create(
    table: &mut ProcessTable,
    scheduler: &mut Scheduler,
    processor: &Processor,
    entry: u64,
    arg: u64,
    ustack_base: u64,
    kernel_satp: u64,
    kstack_top: u64,
    trap_handler: u64,
    sstatus: u64,
) -> (r: (isize, TrapContext))
    requires
        old(table).wf(),
        processor@ is Some,
        old(table).procs().contains_key(processor@->0.pid),
        !old(table).procs()[processor@->0.pid].zombie,
        old(table).procs()[processor@->0.pid].tids@.can_allocate(),
        old(table).procs()[processor@->0.pid].tids@.allocate().1 < MAX_THREADS,
        spec_ustack_bottom(ustack_base as int, MAX_THREADS as int) + USER_STACK_SIZE <= u64::MAX,
        sstatus & SSTATUS_SPP == 0,
    ensures
        final(table).wf(),
        ({
            let pid = processor@->0.pid;
            let tid = old(table).procs()[pid].tids@.allocate().1;
            &&& r.0 == tid
            &&& final(table).procs()[pid].threads@ == (if tid == old(table).procs()[pid].threads@.len() {
                old(table).procs()[pid].threads@.push(Some(None))
            } else {
                old(table).procs()[pid].threads@.update(tid as int, Some(None))
            })
            &&& final(scheduler)@ == old(scheduler)@.push(TaskId { pid, tid })
            &&& r.1.sepc == entry
            &&& r.1.x@[10] == arg
            &&& r.1.x@[2] == spec_ustack_bottom(ustack_base as int, tid as int) + USER_STACK_SIZE
            &&& r.1.kernel_satp == kernel_satp && r.1.kernel_sp == kstack_top && r.1.trap_handler == trap_handler
        }),
{
    let pid = current_pid(processor);
    let tid = table.add_thread(pid);
    let res = TCBUserResource { tid, ustack_base };
    proof {
        assert(spec_ustack_bottom(ustack_base as int, tid as int) <= spec_ustack_bottom(ustack_base as int, MAX_THREADS as int))
            by (nonlinear_arith)
            requires
                tid < MAX_THREADS,
        ;
    }
    let mut ctx = TrapContext::app_init_context(entry, res.ustack_top(), kernel_satp, kstack_top, trap_handler, sstatus);
    ctx.x[10] = arg;
    scheduler.add_ready(TaskId { pid, tid });
    (tid as isize, ctx)
}

/// Waits for thread `tid` of the calling process: `EINVAL` when it is the
/// caller or has no slot, its exit code when it exited (it is then freed),
/// else `EAGAIN`.
pub fn sys_waittid(table: &mut ProcessTable, processor: &Processor, tid: usize) -> (r: isize)
    requires
        old(table).wf(),
        processor@ is Some,
        old(table).procs().contains_key(processor@->0.pid),
        !old(table).procs()[processor@->0.pid].zombie,
    ensures
        final(table).wf(),
        ({
            let th = old(table).procs()[processor@->0.pid].threads@;
            if tid == processor@->0.tid || tid >= th.len() || th[tid as int] is None {
                r == crate::syscall::syserr::EINVAL && final(table).procs() == old(table).procs()
            } else if th[tid as int] == Some(None::<i32>) {
                r == crate::syscall::syserr::EAGAIN && final(table).procs() == old(table).procs()
            } else {
                r == th[tid as int]->0->0 as isize && final(table).procs()[processor@->0.pid].threads@ == th.update(
                    tid as int,
                    None,
                )
            }
        }),
{
    let pid = current_pid(processor);
    let cur = current_tid(processor);
    table.waittid(pid, cur, tid)
}

/// The calling thread exits with `exit_code` (the process too, when it is
/// the main thread); the next ready thread gets the processor.
pub fn sys_exit(
    table: &mut ProcessTable,
    scheduler: &mut Scheduler,
    processor: &mut Processor,
    states: &mut TaskStates,
    exit_code: i32,
    init: usize,
) -> (r: Option<TaskId>)
    requires
        old(table).wf(),
        after_exit_queue(old(scheduler)@, old(processor)@->0).len() > 0 ==> count_room(
            old(states)@,
            after_exit_queue(old(scheduler)@, old(processor)@->0)[0],
        ),
        old(processor)@ is Some,
        old(table).procs().contains_key(old(processor)@->0.pid),
        old(processor)@->0.tid == 0 ==> ({
            &&& old(table).procs().contains_key(init)
            &&& old(table).procs()[init].parent is None
            &&& !old(table).procs()[init].zombie
            &&& old(processor)@->0.pid != init
        }),
        old(processor)@->0.tid != 0 ==> ({
            let t = old(processor)@->0;
            t.tid < old(table).procs()[t.pid].threads@.len() && old(table).procs()[t.pid].threads@[t.tid as int] is Some
        }),
    ensures
        final(table).wf(),
        final(table).pids() == old(table).pids(),
        ({
            let t = old(processor)@->0;
            let queue = if t.tid == 0 {
                old(scheduler)@.filter(not_of_process(t.pid))
            } else {
                old(scheduler)@
            };
            &&& t.tid == 0 ==> main_exited(old(table).procs(), final(table).procs(), t.pid, exit_code, init)
            &&& t.tid != 0 ==> thread_exited(old(table).procs(), final(table).procs(), t.pid, t.tid, exit_code)
            &&& queue.len() == 0 ==> r is None && final(scheduler)@ == queue && final(processor)@ is None && final(states)@
                == old(states)@
            &&& queue.len() > 0 ==> r == Some(queue[0]) && final(scheduler)@ == queue.drop_first() && final(processor)@ == r
                && final(states)@ == started(old(states)@, queue[0])
        }),
{
    exit_and_run_next(table, scheduler, processor, states, exit_code, init)
}

/// The caller yields the processor; the call returns 0.
pub fn sys_sched_yield(scheduler: &mut Scheduler, processor: &mut Processor, states: &mut TaskStates) -> (r: isize)
    requires
        old(processor)@ is Some,
        count_room(old(states)@, old(scheduler)@.push(old(processor)@->0)[0]),
    ensures
        r == 0,
        final(scheduler)@ == old(scheduler)@.push(old(processor)@->0).drop_first(),
        final(processor)@ == Some(old(scheduler)@.push(old(processor)@->0)[0]),
        final(states)@ == started(
            suspended(old(states)@, old(processor)@->0),
            old(scheduler)@.push(old(processor)@->0)[0],
        ),
{
    suspend_and_run_next(scheduler, processor, states);
    0
}

} // verus!
