use kos::fs::file::FileHandle;
use kos::process::fdtable::FdTable;
use kos::process::pid::{Pid, RecycleAllocator};
use kos::process::processor::{current_add_signal, current_pid, TaskRecord, TaskStates, current_tid, exit_and_run_next, run_app, schedule, suspend_and_run_next, Processor};
use kos::process::scheduler::{Scheduler, TaskId};
use kos::process::table::ProcessTable;
use kos::syscall::process::{sys_exit, sys_fork, sys_getpid, sys_sched_yield, sys_waitpid};
use kos::syscall::syserr::{EAGAIN, EINVAL, ESRCH};
use kos::syscall::thread::{sys_thread_create, sys_waittid};
use kos::trap::context::TrapContext;
use kos::process::signal::SignalFlags;
use kos::task::tcb::TaskStatus;

fn file(id: u64) -> FileHandle {
    FileHandle { id, readable: true, writable: true }
}

fn stdio() -> FdTable<FileHandle> {
    FdTable::with_stdio(
        FileHandle { id: 0, readable: true, writable: false },
        FileHandle { id: 1, readable: false, writable: true },
        FileHandle { id: 2, readable: false, writable: true },
    )
}

fn task(pid: usize, tid: usize) -> TaskId {
    TaskId { pid, tid }
}

#[test]
fn recycle_allocator_reuses_last_given_back() {
    let mut a = RecycleAllocator::new();
    assert_eq!(a.allocate(), 0);
    assert_eq!(a.allocate(), 1);
    assert_eq!(a.allocate(), 2);
    a.dealloc(0);
    a.dealloc(2);
    assert_eq!(a.allocate(), 2);
    assert_eq!(a.allocate(), 0);
    assert_eq!(a.allocate(), 3);
    let p = Pid::allocate(&mut a);
    assert_eq!(p.0, 4);
    p.release(&mut a);
    assert_eq!(a.allocate(), 4);
}

#[test]
fn fd_table_lowest_free_descriptor() {
    let mut t = stdio();
    assert_eq!(t.len(), 3);
    assert_eq!(t.alloc_fd(), 3);
    t.set(3, Some(file(10)));
    assert!(t.is_open(3));
    let taken = t.take(1);
    assert_eq!(taken, Some(FileHandle { id: 1, readable: false, writable: true }));
    assert!(!t.is_open(1));
    assert_eq!(t.alloc_fd(), 1);
    let copy = t.duplicate();
    assert_eq!(copy.get(3), Some(&file(10)));
    t.clear();
    assert_eq!(t.len(), 0);
    assert_eq!(t.alloc_fd(), 0);
}

#[test]
fn scheduler_is_first_come_first_served() {
    let mut s = Scheduler::new();
    s.add_ready(task(1, 0));
    s.add_ready(task(2, 0));
    s.add_ready(task(1, 1));
    assert_eq!(s.count(), 3);
    let removed = s.filter(1);
    assert_eq!(removed, vec![task(1, 0), task(1, 1)]);
    assert_eq!(s.count(), 1);
    assert_eq!(s.fetch(), Some(task(2, 0)));
    assert_eq!(s.fetch(), None);
}

#[test]
fn processor_round_robin() {
    let mut s = Scheduler::new();
    let mut p = Processor::new();
    let mut st = TaskStates::new();
    assert_eq!(run_app(&mut s, &mut p, &mut st), None);
    s.add_ready(task(1, 0));
    s.add_ready(task(2, 0));
    assert_eq!(run_app(&mut s, &mut p, &mut st), Some(task(1, 0)));
    assert_eq!(current_pid(&p), 1);
    assert_eq!(current_tid(&p), 0);
    assert_eq!(suspend_and_run_next(&mut s, &mut p, &mut st), task(2, 0));
    assert_eq!(st.get(task(1, 0)), TaskRecord { status: TaskStatus::Ready, count: 60 });
    assert_eq!(st.get(task(2, 0)), TaskRecord { status: TaskStatus::Running, count: 60 });
    assert_eq!(sys_sched_yield(&mut s, &mut p, &mut st), 0);
    assert_eq!(p.current(), Some(task(1, 0)));
    assert_eq!(st.get(task(1, 0)), TaskRecord { status: TaskStatus::Running, count: 120 });
    assert_eq!(st.get(task(2, 0)), TaskRecord { status: TaskStatus::Ready, count: 60 });
    assert_eq!(p.take_current(), Some(task(1, 0)));
    assert_eq!(p.current(), None);
    assert_eq!(schedule(&mut s, &mut p, &mut st), Some(task(2, 0)));
}

#[test]
fn fork_exit_and_wait() {
    let mut table = ProcessTable::new();
    let init = table.add_first(stdio(), b"init".to_vec());
    assert_eq!(init, 0);
    let mut s = Scheduler::new();
    let mut p = Processor::new();
    let mut st = TaskStates::new();
    s.add_ready(task(init, 0));
    run_app(&mut s, &mut p, &mut st);
    let mut ctx = TrapContext::app_init_context(0x1000, 0x8000, 0, 0, 0, 0);
    ctx.x[10] = 77;
    let (child, child_ctx) = sys_fork(&mut table, &mut s, &p, &ctx);
    assert_eq!(child, 1);
    assert_eq!(child_ctx.x[10], 0);
    assert_eq!(child_ctx.sepc, 0x1000);
    assert_eq!(child_ctx.x[2], 0x8000);
    assert_eq!(table.get(1).unwrap().parent, Some(0));
    assert_eq!(table.get(0).unwrap().children, vec![1]);
    assert_eq!(table.get(1).unwrap().fds.len(), 3);
    assert_eq!(table.get(1).unwrap().fds.get(1), table.get(0).unwrap().fds.get(1));
    assert!(!table.get(1).unwrap().zombie);
    assert_eq!(table.get(1).unwrap().signals.pending_signals.bits(), 0);
    // the child has not exited yet
    assert_eq!(sys_waitpid(&mut table, &p, 1), (EAGAIN, None));
    assert_eq!(sys_waitpid(&mut table, &p, 5), (-1, None));
    // the child runs and exits with 3
    assert_eq!(sys_sched_yield(&mut s, &mut p, &mut st), 0);
    assert_eq!(sys_getpid(&p), 1);
    assert_eq!(sys_exit(&mut table, &mut s, &mut p, &mut st, 3, init), Some(task(0, 0)));
    assert!(table.get(1).unwrap().zombie);
    assert_eq!(sys_waitpid(&mut table, &p, -1), (1, Some(3)));
    assert!(table.get(1).is_none());
    assert_eq!(table.get(0).unwrap().children, Vec::<usize>::new());
    assert_eq!(sys_waitpid(&mut table, &p, -1), (-1, None));
}

#[test]
fn orphans_go_to_init() {
    let mut table = ProcessTable::new();
    let init = table.add_first(stdio(), b"init".to_vec());
    let a = table.fork(init);
    let b = table.fork(a);
    let c = table.fork(a);
    table.exit_main(a, 9, init);
    assert_eq!(table.get(init).unwrap().children, vec![a, b, c]);
    assert_eq!(table.get(b).unwrap().parent, Some(init));
    assert_eq!(table.get(c).unwrap().parent, Some(init));
    assert!(table.get(a).unwrap().children.is_empty());
    assert_eq!(table.waitpid(init, -1), (a as isize, Some(9)));
}

#[test]
fn exit_of_the_main_thread_drops_its_tasks() {
    let mut table = ProcessTable::new();
    let init = table.add_first(stdio(), b"init".to_vec());
    let a = table.fork(init);
    let mut s = Scheduler::new();
    let mut p = Processor::new();
    let mut st = TaskStates::new();
    s.add_ready(task(a, 0));
    s.add_ready(task(a, 1));
    s.add_ready(task(init, 0));
    run_app(&mut s, &mut p, &mut st);
    assert_eq!(exit_and_run_next(&mut table, &mut s, &mut p, &mut st, -1, init), Some(task(init, 0)));
    assert_eq!(s.count(), 0);
    assert_eq!(table.get(a).unwrap().exit_code, -1);
}

#[test]
fn threads_create_exit_and_wait() {
    let mut table = ProcessTable::new();
    let init = table.add_first(stdio(), b"init".to_vec());
    let mut s = Scheduler::new();
    let mut p = Processor::new();
    let mut st = TaskStates::new();
    s.add_ready(task(init, 0));
    run_app(&mut s, &mut p, &mut st);
    let (tid, ctx) = sys_thread_create(&mut table, &mut s, &p, 0x2000, 42, 0x10_0000, 7, 8, 9, 0);
    assert_eq!(tid, 1);
    assert_eq!(ctx.sepc, 0x2000);
    assert_eq!(ctx.x[10], 42);
    // stack of thread 1: above the base, one stack and guard page up
    assert_eq!(ctx.x[2], 0x10_0000 + 4096 + 8192 + 8192);
    assert_eq!(ctx.kernel_satp, 7);
    assert_eq!(ctx.kernel_sp, 8);
    assert_eq!(ctx.trap_handler, 9);
    assert_eq!(s.count(), 1);
    assert_eq!(sys_waittid(&mut table, &p, 0), EINVAL);
    assert_eq!(sys_waittid(&mut table, &p, 5), EINVAL);
    assert_eq!(sys_waittid(&mut table, &p, 1), EAGAIN);
    table.exit_slave(init, 1, 12);
    assert_eq!(sys_waittid(&mut table, &p, 1), 12);
    assert_eq!(sys_waittid(&mut table, &p, 1), EINVAL);
    // the identifier is given back and taken again
    assert_eq!(table.add_thread(init), 1);
}

#[test]
fn kill_marks_the_signal_pending_once() {
    let mut table = ProcessTable::new();
    let init = table.add_first(stdio(), b"init".to_vec());
    assert_eq!(table.kill(init, 10), 0);
    assert_eq!(table.get(init).unwrap().signals.pending_signals.bits(), 1 << 10);
    assert_eq!(table.kill(init, 10), EINVAL);
    assert_eq!(table.kill(99, 40), ESRCH);
}

#[test]
fn a_signal_for_the_running_process_is_added_without_checks() {
    let mut table = ProcessTable::new();
    let init = table.add_first(stdio(), b"init".to_vec());
    let mut s = Scheduler::new();
    let mut p = Processor::new();
    let mut st = TaskStates::new();
    s.add_ready(task(init, 0));
    run_app(&mut s, &mut p, &mut st);
    current_add_signal(&mut table, &p, SignalFlags::SIGSEGV());
    assert_eq!(table.get(init).unwrap().signals.pending_signals.bits(), 1 << 11);
    // adding it again keeps it pending once
    current_add_signal(&mut table, &p, SignalFlags::SIGSEGV());
    assert_eq!(table.get(init).unwrap().signals.pending_signals.bits(), 1 << 11);
    current_add_signal(&mut table, &p, SignalFlags::SIGILL());
    assert_eq!(table.get(init).unwrap().signals.pending_signals.bits(), (1 << 11) | (1 << 4));
}

#[test]
fn fork_keeps_program_name_and_directory() {
    let mut table = ProcessTable::new();
    let init = table.add_first(stdio(), b"init".to_vec());
    assert_eq!(table.get(init).unwrap().cmd, b"init".to_vec());
    assert_eq!(table.get(init).unwrap().cwd, b"/".to_vec());
    let mut s = Scheduler::new();
    let mut p = Processor::new();
    let mut st = TaskStates::new();
    s.add_ready(task(init, 0));
    run_app(&mut s, &mut p, &mut st);
    let ctx = TrapContext::app_init_context(0x1000, 0x8000, 0, 0, 0, 0);
    let (child, _) = sys_fork(&mut table, &mut s, &p, &ctx);
    assert_eq!(table.get(child as usize).unwrap().cmd, b"init".to_vec());
    assert_eq!(table.get(child as usize).unwrap().cwd, b"/".to_vec());
    table.set_cmd(child as usize, b"shell".to_vec());
    assert_eq!(table.get(child as usize).unwrap().cmd, b"shell".to_vec());
    assert_eq!(table.get(init).unwrap().cmd, b"init".to_vec());
}

#[test]
fn allocations_after_release_reuse_the_last_released() {
    // allocate 0, 1, 2; give back 1 then 0: the next ones are 0, 1, then 3
    let mut a = RecycleAllocator::new();
    let ids: Vec<usize> = (0..3).map(|_| a.allocate()).collect();
    assert_eq!(ids, vec![0, 1, 2]);
    a.dealloc(1);
    a.dealloc(0);
    assert_eq!(a.allocate(), 0);
    assert_eq!(a.allocate(), 1);
    assert_eq!(a.allocate(), 3);
}
