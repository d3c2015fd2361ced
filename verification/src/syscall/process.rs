//! The process system calls, as decisions on the process table, the ready
//! queue and the processor.
use crate::process::processor::{current_pid, exit_and_run_next, suspend_and_run_next, Processor, after_exit_queue, count_room, started, suspended, TaskStates};
use crate::process::scheduler::{not_of_process, Scheduler, TaskId};
use crate::process::table::{main_exited, matches_pid, reapable, thread_exited, Process, ProcessTable};
use crate::syscall::syserr::{EAGAIN, ECHILD};
use crate::trap::context::TrapContext;
use crate::memory::address_space::{heap_pages, heap_room, trampoline_vpn, AddressSpace};
use crate::memory::frame::{PhysMem, StackFrameAllocator};
use crate::memory::page_table::is_mapped;
use vstd::prelude::*;

verus! {

/// The identifier of the calling process.
pub fn sys_getpid(processor: &Processor) -> (r: isize)
    requires
        processor@ is Some,
        processor@->0.pid <= isize::MAX,
    ensures
        r == processor@->0.pid,
{
    current_pid(processor) as isize
}

/// Grows the heap of the calling process's address space, its last
/// segment, by `increment` bytes rounded up to whole pages, and returns the
/// new end of the heap as an address (with an increment of 0, the current
/// end). When the heap cannot grow that far (see `heap_can_grow`: the new
/// pages would reach another segment, such as a thread's user stack, a page
/// already mapped, or the trampoline at the top of the user half), nothing
/// changes and the call returns -1: the heap never shares a page with
/// another segment, which is what lets a fault in it be served from the
/// heap alone.
pub fn sys_sbrk(space: &mut AddressSpace, mem: &PhysMem, allocator: &StackFrameAllocator, increment: usize) -> (r: isize)
    requires
        old(space).wf(mem.view(), allocator@),
        old(space).segs().len() >= 2,
        old(space).segs().last().map_perm@ & 16u8 == 16u8,
    ensures
        final(space).wf(mem.view(), allocator@),
        !old(space).heap_can_grow(mem.view(), increment as int) ==> r == -1 && *final(space) == *old(space),
        old(space).heap_can_grow(mem.view(), increment as int) ==> {
            &&& final(space).root() == old(space).root()
            &&& final(space).segs().len() == old(space).segs().len()
            &&& forall|j: int| 0 <= j < old(space).segs().len() - 1 ==> #[trigger] final(space).segs()[j] == old(space).segs()[j]
            &&& final(space).segs().last().start() == old(space).segs().last().start()
            &&& final(space).segs().last().end() == old(space).segs().last().end() + heap_pages(increment as int)
            &&& final(space).segs().last().frames() == old(space).segs().last().frames()
            &&& final(space).segs().last().map_type == old(space).segs().last().map_type
            &&& final(space).segs().last().map_perm == old(space).segs().last().map_perm
            &&& r == final(space).segs().last().end() * 4096
        },
{
    if !space.heap_growth_ok(mem, increment as u64) {
        return -1;
    }
    let end = space.sbrk(mem, allocator, increment as u64);
    end as isize
}

/// Forks the calling process, which must hold one thread: the child runs
/// the same program in the same working directory with the same open files
/// and signal handling; its main thread becomes ready with the caller's trap
/// context, but 0 as the call's result (register a0). Returns the child's identifier (the parent's
/// result) and the child's trap context.
pub fn sys_fork(
    table: &mut ProcessTable,
    scheduler: &mut Scheduler,
    processor: &Processor,
    parent_ctx: &TrapContext,
) -> (r: (isize, TrapContext))
    requires
        old(table).wf(),
        processor@ is Some,
        old(table).procs().contains_key(processor@->0.pid),
        old(table).procs()[processor@->0.pid].threads@.len() == 1,
        !old(table).procs()[processor@->0.pid].zombie,
        old(table).pids().can_allocate(),
        old(table).pids().current < isize::MAX,
    ensures
        final(table).wf(),
        ({
            let child = r.0 as usize;
            let parent = processor@->0.pid;
            &&& 0 <= r.0
            &&& !old(table).procs().contains_key(child)
            &&& final(table).procs().dom() == old(table).procs().dom().insert(child)
            &&& (final(table).pids(), child) == old(table).pids().allocate()
            &&& final(table).procs()[child].parent == Some(parent)
            &&& final(table).procs()[parent] == (Process {
                children: final(table).procs()[parent].children,
                ..old(table).procs()[parent]
            })
            &&& final(table).procs()[parent].children@ == old(table).procs()[parent].children@.push(child)
            &&& forall|q: usize| q != child && q != parent && #[trigger] old(table).procs().contains_key(q)
                ==> final(table).procs()[q] == old(table).procs()[q]
            &&& final(table).procs()[child].children@ == Seq::<usize>::empty()
            &&& !final(table).procs()[child].zombie
            &&& final(table).procs()[child].exit_code == 0
            &&& final(table).procs()[child].threads@ == seq![Some(None::<i32>)]
            &&& final(table).procs()[child].fds.view() == old(table).procs()[parent].fds.view()
            &&& final(table).procs()[child].signals.model().pending == 0
            &&& final(table).procs()[child].signals.model().mask == old(table).procs()[parent].signals.model().mask
            &&& final(table).procs()[child].signals.model().actions == old(table).procs()[parent].signals.model().actions
            &&& final(table).procs()[child].cmd@ == old(table).procs()[parent].cmd@
            &&& final(table).procs()[child].cwd@ == old(table).procs()[parent].cwd@
            &&& final(scheduler)@ == old(scheduler)@.push(TaskId { pid: child, tid: 0 })
            &&& r.1.x@ == parent_ctx.x@.update(10, 0u64)
            &&& r.1.sepc == parent_ctx.sepc && r.1.sstatus == parent_ctx.sstatus
            &&& r.1.kernel_satp == parent_ctx.kernel_satp && r.1.kernel_sp == parent_ctx.kernel_sp
            &&& r.1.trap_handler == parent_ctx.trap_handler
        }),
{
    let parent = current_pid(processor);
    let child = table.fork(parent);
    proof {
        let s0 = old(table).pids();
        if s0.recycled.len() > 0 {
            assert(s0.recycled[s0.recycled.len() - 1] < s0.current);
        }
    }
    let mut ctx = *parent_ctx;
    ctx.x[10] = 0;
    scheduler.add_ready(TaskId { pid: child, tid: 0 });
    (child as isize, ctx)
}

/// The caller yields the processor; the call returns 0.
pub fn sys_sched_yield(scheduler: &mut Scheduler, processor: &mut Processor, states: &mut TaskStates) -> (r: isize)
    requires
        old(processor)@ is Some,
        count_room(old(states)@, old(scheduler)@.push(old(processor)@->0)[0]),
    ensures
        r == 0,
        final(scheduler)@ == old(scheduler)@.push(old(processor)@->0).drop_first(),
        final(processor)@ == Some(old(scheduler)@.push(old(processor)@->0)[0]),
        final(states)@ == started(
            suspended(old(states)@, old(processor)@->0),
            old(scheduler)@.push(old(processor)@->0)[0],
        ),
{
    suspend_and_run_next(scheduler, processor, states);
    0
}

/// The calling thread exits with `exit_code` (the process too, when it is
/// the main thread); the next ready thread gets the processor.
pub fn sys_exit(
    table: &mut ProcessTable,
    scheduler: &mut Scheduler,
    processor: &mut Processor,
    states: &mut TaskStates,
    exit_code: i32,
    init: usize,
) -> (r: Option<TaskId>)
    requires
        old(table).wf(),
        after_exit_queue(old(scheduler)@, old(processor)@->0).len() > 0 ==> count_room(
            old(states)@,
            after_exit_queue(old(scheduler)@, old(processor)@->0)[0],
        ),
        old(processor)@ is Some,
        old(table).procs().contains_key(old(processor)@->0.pid),
        old(processor)@->0.tid == 0 ==> ({
            &&& old(table).procs().contains_key(init)
            &&& old(table).procs()[init].parent is None
            &&& !old(table).procs()[init].zombie
            &&& old(processor)@->0.pid != init
        }),
        old(processor)@->0.tid != 0 ==> ({
            let t = old(processor)@->0;
            t.tid < old(table).procs()[t.pid].threads@.len() && old(table).procs()[t.pid].threads@[t.tid as int] is Some
        }),
    ensures
        final(table).wf(),
        final(table).pids() == old(table).pids(),
        ({
            let t = old(processor)@->0;
            let queue = if t.tid == 0 {
                old(scheduler)@.filter(not_of_process(t.pid))
            } else {
                old(scheduler)@
            };
            &&& t.tid == 0 ==> main_exited(old(table).procs(), final(table).procs(), t.pid, exit_code, init)
            &&& t.tid != 0 ==> thread_exited(old(table).procs(), final(table).procs(), t.pid, t.tid, exit_code)
            &&& queue.len() == 0 ==> r is None && final(scheduler)@ == queue && final(processor)@ is None && final(states)@
                == old(states)@
            &&& queue.len() > 0 ==> r == Some(queue[0]) && final(scheduler)@ == queue.drop_first() && final(processor)@ == r
                && final(states)@ == started(old(states)@, queue[0])
        }),
{
    exit_and_run_next(table, scheduler, processor, states, exit_code, init)
}

/// Waits for a child of the caller (`pid` -1: any child): -1 when no child
/// matches, `EAGAIN` when none of those is a zombie, else the first
/// zombie one is reaped and its identifier returned with its exit code.
pub fn sys_waitpid(table: &mut ProcessTable, processor: &Processor, pid: isize) -> (r: (isize, Option<i32>))
    requires
        old(table).wf(),
        processor@ is Some,
        old(table).procs().contains_key(processor@->0.pid),
        old(table).pids().current <= isize::MAX,
    ensures
        final(table).wf(),
        ({
            let m0 = old(table).procs();
            let parent = processor@->0.pid;
            let ch = m0[parent].children@;
            if !(exists|i: int| 0 <= i < ch.len() && #[trigger] matches_pid(pid, ch[i])) {
                r == (-1isize, None::<i32>) && final(table).procs() == m0 && final(table).pids() == old(table).pids()
            } else if !(exists|i: int| 0 <= i < ch.len() && #[trigger] reapable(m0, pid, ch[i])) {
                r == (EAGAIN, None::<i32>) && final(table).procs() == m0 && final(table).pids() == old(table).pids()
            } else {
                exists|i: int|
                    0 <= i < ch.len() && #[trigger] reapable(m0, pid, ch[i]) && (forall|j: int|
                        0 <= j < i ==> !#[trigger] reapable(m0, pid, ch[j])) && r == (ch[i] as isize, Some(m0[ch[i]].exit_code))
                        && final(table).procs().dom() == m0.dom().remove(ch[i])
                        && final(table).procs()[parent] == (Process {
                        children: final(table).procs()[parent].children,
                        ..m0[parent]
                    }) && final(table).procs()[parent].children@ == ch.remove(i) && (forall|q: usize|
                        #[trigger] final(table).procs().contains_key(q) && q != parent ==> final(table).procs()[q] == m0[q])
                        && final(table).pids() == old(table).pids().dealloc(ch[i])
            }
        }),
        r.0 == -1 ==> final(table).procs() == old(table).procs() && r.1 is None,
        r.0 == crate::syscall::syserr::EAGAIN ==> final(table).procs() == old(table).procs() && r.1 is None,
        r.1 matches Some(code) ==> ({
            let c = r.0 as usize;
            let m0 = old(table).procs();
            &&& m0[processor@->0.pid].children@.contains(c)
            &&& m0[c].zombie
            &&& code == m0[c].exit_code
            &&& final(table).procs().dom() == m0.dom().remove(c)
        }),
{
    let parent = current_pid(processor);
    let r = table.waitpid(parent, pid);
    proof {
        let m0 = old(table).procs();
        let ch = m0[parent].children@;
        assert forall|i: int| 0 <= i < ch.len() implies #[trigger] ch[i] < isize::MAX by {
            assert(m0.contains_key(ch[i]));
            assert(old(table).pids().is_live(ch[i]));
        }
        if r.1 is Some {
            let i = choose|i: int|
                0 <= i < ch.len() && #[trigger] crate::process::table::reapable(m0, pid, ch[i]) && (forall|j: int|
                    0 <= j < i ==> !#[trigger] crate::process::table::reapable(m0, pid, ch[j])) && r == (
                ch[i] as isize,
                Some(m0[ch[i]].exit_code),
            ) && table.procs().dom() == m0.dom().remove(ch[i]) && table.procs()[parent] == (crate::process::table::Process {
                children: table.procs()[parent].children,
                ..m0[parent]
            }) && table.procs()[parent].children@ == ch.remove(i) && (forall|q: usize|
                #[trigger] table.procs().contains_key(q) && q != parent ==> table.procs()[q] == m0[q])
                && table.pids() == old(table).pids().dealloc(ch[i]);
            assert(ch.contains(ch[i]));
            assert(m0.contains_key(ch[i]));
            assert(old(table).pids().is_live(ch[i]));
            assert((ch[i] as isize) as usize == ch[i]);
        }
    }
    if r.0 == ECHILD {
        (-1, None)
    } else {
        r
    }
}

} // verus!
