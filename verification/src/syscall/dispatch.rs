//! Which system call a trap asks for, and with which arguments.
use vstd::prelude::*;

verus! {

pub const SYSCALL_IO_SETUP: usize = 0;
pub const SYSCALL_IO_DESTROY: usize = 1;
pub const SYSCALL_GETCWD: usize = 17;
pub const SYSCALL_DUP: usize = 23;
pub const SYSCALL_MKDIRAT: usize = 34;
pub const SYSCALL_UNLINKAT: usize = 35;
pub const SYSCALL_LINKAT: usize = 37;
pub const SYSCALL_FTRUNCATE: usize = 46;
pub const SYSCALL_CHDIR: usize = 49;
pub const SYSCALL_OPENAT: usize = 56;
pub const SYSCALL_CLOSE: usize = 57;
pub const SYSCALL_PIPE2: usize = 59;
pub const SYSCALL_LSEEK: usize = 62;
pub const SYSCALL_READ: usize = 63;
pub const SYSCALL_WRITE: usize = 64;
pub const SYSCALL_FSTAT: usize = 80;
pub const SYSCALL_EXIT: usize = 93;
pub const SYSCALL_SCHED_YIELD: usize = 124;
pub const SYSCALL_KILL: usize = 129;
pub const SYSCALL_RT_SIGACTION: usize = 134;
pub const SYSCALL_RT_SIGPROCMASK: usize = 135;
pub const SYSCALL_RT_SIGRETURN: usize = 139;
pub const SYSCALL_GETTIMEOFDAY: usize = 169;
pub const SYSCALL_GETPID: usize = 172;
pub const SYSCALL_BRK: usize = 214;
pub const SYSCALL_CLONE: usize = 220;
pub const SYSCALL_EXECVE: usize = 221;
pub const SYSCALL_WAIT4: usize = 260;
/// The kernel's own calls, numbered above the standard ones.
pub const SYSCALL_SHUTDOWN: usize = 2000;
pub const SYSCALL_CUSTOM_LISTDIR: usize = 2001;
pub const SYSCALL_CUSTOM_LISTAPPS: usize = 2002;
pub const SYSCALL_CUSTOM_THREAD_CREATE: usize = 2003;

/// A system call with its arguments; user addresses stay numbers.
#[derive(Copy, Clone, Debug, PartialEq, Eq, Structural)]
pub enum Syscall {
    OpenAt { path: usize, flags: u32, mode: u16 },
    Close { fd: usize },
    Write { fd: usize, buf: usize, len: usize },
    Read { fd: usize, buf: usize, len: usize },
    Ftruncate { fd: usize, length: usize },
    UnlinkAt { path: usize },
    LinkAt { to: usize, from: usize },
    Chdir { path: usize },
    Getcwd { buf: usize, max_len: usize },
    Lseek { fd: usize, offset: isize, whence: usize },
    MkdirAt { path: usize, mode: usize },
    Fstat { fd: usize, stat: usize },
    Pipe { fds: usize },
    Dup { fd: usize },
    IoSetup { a: usize, b: usize, c: usize },
    IoDestroy { a: usize, b: usize, c: usize },
    Kill { pid: usize, signal: i32 },
    SigAction { signal: i32, action: usize, old_action: usize },
    SigReturn,
    SigProcMask { mask: u32 },
    Exit { code: i32 },
    SchedYield,
    GetTimeOfDay,
    Brk { increment: usize },
    GetPid,
    Fork,
    Execve { path: usize, args: usize, envs: usize },
    Wait4 { pid: isize, exit_code: usize },
    Shutdown,
    ListDir { path: usize },
    ListApps,
    ThreadCreate { entry: usize, arg: usize },
}

/// The system call that number `id` names with registers `args`, if the
/// kernel knows it.
pub open spec fn decode(id: usize, args: [usize; 3]) -> Option<Syscall> {
    let a = args@;
    if id == SYSCALL_OPENAT {
        Some(Syscall::OpenAt { path: a[0], flags: a[1] as u32, mode: a[2] as u16 })
    } else if id == SYSCALL_CLOSE {
        Some(Syscall::Close { fd: a[0] })
    } else if id == SYSCALL_WRITE {
        Some(Syscall::Write { fd: a[0], buf: a[1], len: a[2] })
    } else if id == SYSCALL_READ {
        Some(Syscall::Read { fd: a[0], buf: a[1], len: a[2] })
    } else if id == SYSCALL_FTRUNCATE {
        Some(Syscall::Ftruncate { fd: a[0], length: a[1] })
    } else if id == SYSCALL_UNLINKAT {
        Some(Syscall::UnlinkAt { path: a[0] })
    } else if id == SYSCALL_LINKAT {
        Some(Syscall::LinkAt { to: a[0], from: a[1] })
    } else if id == SYSCALL_CHDIR {
        Some(Syscall::Chdir { path: a[0] })
    } else if id == SYSCALL_GETCWD {
        Some(Syscall::Getcwd { buf: a[0], max_len: a[1] })
    } else if id == SYSCALL_LSEEK {
        Some(Syscall::Lseek { fd: a[0], offset: a[1] as isize, whence: a[2] })
    } else if id == SYSCALL_MKDIRAT {
        Some(Syscall::MkdirAt { path: a[0], mode: a[1] })
    } else if id == SYSCALL_FSTAT {
        Some(Syscall::Fstat { fd: a[0], stat: a[1] })
    } else if id == SYSCALL_PIPE2 {
        Some(Syscall::Pipe { fds: a[0] })
    } else if id == SYSCALL_DUP {
        Some(Syscall::Dup { fd: a[0] })
    } else if id == SYSCALL_IO_SETUP {
        Some(Syscall::IoSetup { a: a[0], b: a[1], c: a[2] })
    } else if id == SYSCALL_IO_DESTROY {
        Some(Syscall::IoDestroy { a: a[0], b: a[1], c: a[2] })
    } else if id == SYSCALL_KILL {
        Some(Syscall::Kill { pid: a[0], signal: a[1] as i32 })
    } else if id == SYSCALL_RT_SIGACTION {
        Some(Syscall::SigAction { signal: a[0] as i32, action: a[1], old_action: a[2] })
    } else if id == SYSCALL_RT_SIGRETURN {
        Some(Syscall::SigReturn)
    } else if id == SYSCALL_RT_SIGPROCMASK {
        Some(Syscall::SigProcMask { mask: a[0] as u32 })
    } else if id == SYSCALL_EXIT {
        Some(Syscall::Exit { code: a[0] as i32 })
    } else if id == SYSCALL_SCHED_YIELD {
        Some(Syscall::SchedYield)
    } else if id == SYSCALL_GETTIMEOFDAY {
        Some(Syscall::GetTimeOfDay)
    } else if id == SYSCALL_BRK {
        Some(Syscall::Brk { increment: a[0] })
    } else if id == SYSCALL_GETPID {
        Some(Syscall::GetPid)
    } else if id == SYSCALL_CLONE {
        Some(Syscall::Fork)
    } else if id == SYSCALL_EXECVE {
        Some(Syscall::Execve { path: a[0], args: a[1], envs: a[2] })
    } else if id == SYSCALL_WAIT4 {
        Some(Syscall::Wait4 { pid: a[0] as isize, exit_code: a[1] })
    } else if id == SYSCALL_SHUTDOWN {
        Some(Syscall::Shutdown)
    } else if id == SYSCALL_CUSTOM_LISTDIR {
        Some(Syscall::ListDir { path: a[0] })
    } else if id == SYSCALL_CUSTOM_LISTAPPS {
        Some(Syscall::ListApps)
    } else if id == SYSCALL_CUSTOM_THREAD_CREATE {
        Some(Syscall::ThreadCreate { entry: a[0], arg: a[1] })
    } else {
        None
    }
}

/// The system call that number `id` names with registers `args`; `None`
/// for a number the kernel does not know.
pub fn syscall(id: usize, args: [usize; 3]) -> (r: Option<Syscall>)
    ensures
        r == decode(id, args),
{
    let a0 = args[0];
    let a1 = args[1];
    let a2 = args[2];
    if id == SYSCALL_OPENAT {
        Some(Syscall::OpenAt { path: a0, flags: a1 as u32, mode: a2 as u16 })
    } else if id == SYSCALL_CLOSE {
        Some(Syscall::Close { fd: a0 })
    } else if id == SYSCALL_WRITE {
        Some(Syscall::Write { fd: a0, buf: a1, len: a2 })
    } else if id == SYSCALL_READ {
        Some(Syscall::Read { fd: a0, buf: a1, len: a2 })
    } else if id == SYSCALL_FTRUNCATE {
        Some(Syscall::Ftruncate { fd: a0, length: a1 })
    } else if id == SYSCALL_UNLINKAT {
        Some(Syscall::UnlinkAt { path: a0 })
    } else if id == SYSCALL_LINKAT {
        Some(Syscall::LinkAt { to: a0, from: a1 })
    } else if id == SYSCALL_CHDIR {
        Some(Syscall::Chdir { path: a0 })
    } else if id == SYSCALL_GETCWD {
        Some(Syscall::Getcwd { buf: a0, max_len: a1 })
    } else if id == SYSCALL_LSEEK {
        Some(Syscall::Lseek { fd: a0, offset: a1 as isize, whence: a2 })
    } else if id == SYSCALL_MKDIRAT {
        Some(Syscall::MkdirAt { path: a0, mode: a1 })
    } else if id == SYSCALL_FSTAT {
        Some(Syscall::Fstat { fd: a0, stat: a1 })
    } else if id == SYSCALL_PIPE2 {
        Some(Syscall::Pipe { fds: a0 })
    } else if id == SYSCALL_DUP {
        Some(Syscall::Dup { fd: a0 })
    } else if id == SYSCALL_IO_SETUP {
        Some(Syscall::IoSetup { a: a0, b: a1, c: a2 })
    } else if id == SYSCALL_IO_DESTROY {
        Some(Syscall::IoDestroy { a: a0, b: a1, c: a2 })
    } else if id == SYSCALL_KILL {
        Some(Syscall::Kill { pid: a0, signal: a1 as i32 })
    } else if id == SYSCALL_RT_SIGACTION {
        Some(Syscall::SigAction { signal: a0 as i32, action: a1, old_action: a2 })
    } else if id == SYSCALL_RT_SIGRETURN {
        Some(Syscall::SigReturn)
    } else if id == SYSCALL_RT_SIGPROCMASK {
        Some(Syscall::SigProcMask { mask: a0 as u32 })
    } else if id == SYSCALL_EXIT {
        Some(Syscall::Exit { code: a0 as i32 })
    } else if id == SYSCALL_SCHED_YIELD {
        Some(Syscall::SchedYield)
    } else if id == SYSCALL_GETTIMEOFDAY {
        Some(Syscall::GetTimeOfDay)
    } else if id == SYSCALL_BRK {
        Some(Syscall::Brk { increment: a0 })
    } else if id == SYSCALL_GETPID {
        Some(Syscall::GetPid)
    } else if id == SYSCALL_CLONE {
        Some(Syscall::Fork)
    } else if id == SYSCALL_EXECVE {
        Some(Syscall::Execve { path: a0, args: a1, envs: a2 })
    } else if id == SYSCALL_WAIT4 {
        Some(Syscall::Wait4 { pid: a0 as isize, exit_code: a1 })
    } else if id == SYSCALL_SHUTDOWN {
        Some(Syscall::Shutdown)
    } else if id == SYSCALL_CUSTOM_LISTDIR {
        Some(Syscall::ListDir { path: a0 })
    } else if id == SYSCALL_CUSTOM_LISTAPPS {
        Some(Syscall::ListApps)
    } else if id == SYSCALL_CUSTOM_THREAD_CREATE {
        Some(Syscall::ThreadCreate { entry: a0, arg: a1 })
    } else {
        None
    }
}

/// Where each call takes its arguments from, by call number (the RISC-V
/// Linux numbers, and the kernel's own above 2000): the registers `a0`,
/// `a1`, `a2` in that order; `read` and `write` both take the descriptor,
/// the buffer's address and its length; a number the kernel does not know
/// names no call.
pub proof fn lemma_argument_registers(args: [usize; 3])
    ensures
        decode(56, args) == Some(Syscall::OpenAt { path: args@[0], flags: args@[1] as u32, mode: args@[2] as u16 }),
        decode(57, args) == Some(Syscall::Close { fd: args@[0] }),
        decode(64, args) == Some(Syscall::Write { fd: args@[0], buf: args@[1], len: args@[2] }),
        decode(63, args) == Some(Syscall::Read { fd: args@[0], buf: args@[1], len: args@[2] }),
        decode(46, args) == Some(Syscall::Ftruncate { fd: args@[0], length: args@[1] }),
        decode(35, args) == Some(Syscall::UnlinkAt { path: args@[0] }),
        decode(37, args) == Some(Syscall::LinkAt { to: args@[0], from: args@[1] }),
        decode(49, args) == Some(Syscall::Chdir { path: args@[0] }),
        decode(17, args) == Some(Syscall::Getcwd { buf: args@[0], max_len: args@[1] }),
        decode(62, args) == Some(Syscall::Lseek { fd: args@[0], offset: args@[1] as isize, whence: args@[2] }),
        decode(34, args) == Some(Syscall::MkdirAt { path: args@[0], mode: args@[1] }),
        decode(80, args) == Some(Syscall::Fstat { fd: args@[0], stat: args@[1] }),
        decode(59, args) == Some(Syscall::Pipe { fds: args@[0] }),
        decode(23, args) == Some(Syscall::Dup { fd: args@[0] }),
        decode(0, args) == Some(Syscall::IoSetup { a: args@[0], b: args@[1], c: args@[2] }),
        decode(1, args) == Some(Syscall::IoDestroy { a: args@[0], b: args@[1], c: args@[2] }),
        decode(129, args) == Some(Syscall::Kill { pid: args@[0], signal: args@[1] as i32 }),
        decode(134, args) == Some(
            Syscall::SigAction { signal: args@[0] as i32, action: args@[1], old_action: args@[2] },
        ),
        decode(139, args) == Some(Syscall::SigReturn),
        decode(135, args) == Some(Syscall::SigProcMask { mask: args@[0] as u32 }),
        decode(93, args) == Some(Syscall::Exit { code: args@[0] as i32 }),
        decode(124, args) == Some(Syscall::SchedYield),
        decode(169, args) == Some(Syscall::GetTimeOfDay),
        decode(214, args) == Some(Syscall::Brk { increment: args@[0] }),
        decode(172, args) == Some(Syscall::GetPid),
        decode(220, args) == Some(Syscall::Fork),
        decode(221, args) == Some(Syscall::Execve { path: args@[0], args: args@[1], envs: args@[2] }),
        decode(260, args) == Some(Syscall::Wait4 { pid: args@[0] as isize, exit_code: args@[1] }),
        decode(2000, args) == Some(Syscall::Shutdown),
        decode(2001, args) == Some(Syscall::ListDir { path: args@[0] }),
        decode(2002, args) == Some(Syscall::ListApps),
        decode(2003, args) == Some(Syscall::ThreadCreate { entry: args@[0], arg: args@[1] }),
        forall|id: usize|
            !(id == 56 || id == 57 || id == 64 || id == 63 || id == 46 || id == 35 || id == 37 || id == 49 || id == 17
                || id == 62 || id == 34 || id == 80 || id == 59 || id == 23 || id == 0 || id == 1 || id == 129 || id == 134
                || id == 139 || id == 135 || id == 93 || id == 124 || id == 169 || id == 214 || id == 172 || id == 220
                || id == 221 || id == 260 || id == 2000 || id == 2001 || id == 2002 || id == 2003) ==> #[trigger] decode(
                id,
                args,
            ) is None,
{
}

/// `read` and `write` take their arguments alike: whatever the registers,
/// the read decoded from them names the same descriptor, buffer and length
/// as the write decoded from them.
pub proof fn lemma_read_write_alike(args: [usize; 3])
    ensures
        decode(SYSCALL_READ, args) matches Some(Syscall::Read { fd, buf, len }) && decode(SYSCALL_WRITE, args)
            == Some(Syscall::Write { fd, buf, len }),
{
}

} // verus!
