//! The file system calls, as decisions on the descriptor table and on what
//! the file system answered.
use crate::fs::file::{fs_errno, report_fs_err, FileHandle, OpenFlags, VfsErrorKind};
use crate::process::fdtable::FdTable;
use crate::syscall::syserr::{EBADF, EINVAL, ENOTDIR};
use vstd::prelude::*;
use vstd::string::StringExecFns;

verus! {

/// The descriptor is open: in the table and holding a file.
pub open spec fn fd_open(t: Seq<Option<FileHandle>>, fd: usize) -> bool {
    fd < t.len() && t[fd as int] is Some
}

/// Closes descriptor `fd`: `EBADF` when it is not open, else 0.
pub fn sys_close(fds: &mut FdTable<FileHandle>, fd: usize) -> (r: isize)
    ensures
        !fd_open(old(fds).view(), fd) ==> r == EBADF && final(fds).view() == old(fds).view(),
        fd_open(old(fds).view(), fd) ==> r == 0 && final(fds).view() == old(fds).view().update(fd as int, None),
{
    if fd >= fds.len() {
        return EBADF;
    }
    if !fds.is_open(fd) {
        return EBADF;
    }
    fds.take(fd);
    0
}

/// Copies descriptor `fd` to the lowest free descriptor, which it returns:
/// `EBADF` when `fd` is not open.
pub fn sys_dup(fds: &mut FdTable<FileHandle>, fd: usize) -> (r: isize)
    requires
        old(fds).view().len() < isize::MAX,
    ensures
        !fd_open(old(fds).view(), fd) ==> r == EBADF && final(fds).view() == old(fds).view(),
        fd_open(old(fds).view(), fd) ==> ({
            let n = r as int;
            &&& 0 <= n <= old(fds).view().len()
            &&& forall|i: int| 0 <= i < n ==> #[trigger] old(fds).view()[i] is Some
            &&& n < old(fds).view().len() ==> old(fds).view()[n] is None
            &&& final(fds).view() == (if n < old(fds).view().len() {
                old(fds).view()
            } else {
                old(fds).view().push(None)
            }).update(n, old(fds).view()[fd as int])
        }),
{
    if !fds.is_open(fd) {
        return EBADF;
    }
    let file = *fds.get(fd).unwrap();
    let new_fd = fds.alloc_fd();
    fds.set(new_fd, Some(file));
    new_fd as isize
}

/// The file to write through descriptor `fd`: `EBADF` when it is not open
/// or not writable.
pub fn sys_write(fds: &FdTable<FileHandle>, fd: usize) -> (r: Result<FileHandle, isize>)
    ensures
        fd_open(fds.view(), fd) && fds.view()[fd as int]->0.writable ==> r == Ok::<FileHandle, isize>(fds.view()[fd as int]->0),
        !(fd_open(fds.view(), fd) && fds.view()[fd as int]->0.writable) ==> r == Err::<FileHandle, isize>(EBADF),
{
    match fds.get(fd) {
        Some(f) => {
            if f.writable {
                Ok(*f)
            } else {
                Err(EBADF)
            }
        },
        None => Err(EBADF),
    }
}

/// The file to read through descriptor `fd`: `EBADF` when it is not open
/// or not readable.
pub fn sys_read(fds: &FdTable<FileHandle>, fd: usize) -> (r: Result<FileHandle, isize>)
    ensures
        fd_open(fds.view(), fd) && fds.view()[fd as int]->0.readable ==> r == Ok::<FileHandle, isize>(fds.view()[fd as int]->0),
        !(fd_open(fds.view(), fd) && fds.view()[fd as int]->0.readable) ==> r == Err::<FileHandle, isize>(EBADF),
{
    match fds.get(fd) {
        Some(f) => {
            if f.readable {
                Ok(*f)
            } else {
                Err(EBADF)
            }
        },
        None => Err(EBADF),
    }
}

/// The result of a system call that ends with a file system operation: 0,
/// or the number of its error.
pub fn fs_result(res: &Result<(), VfsErrorKind>) -> (r: isize)
    requires
        *res matches Err(e) ==> !(e is Other),
    ensures
        *res is Ok ==> r == 0,
        *res matches Err(e) ==> r == fs_errno(e),
{
    match res {
        Ok(()) => 0,
        Err(e) => report_fs_err(e),
    }
}

/// The file to truncate through descriptor `fd`: `EBADF` when `fd` is past
/// the table or its file is not writable, -1 when the slot is free.
pub fn sys_ftruncate(fds: &FdTable<FileHandle>, fd: usize) -> (r: Result<FileHandle, isize>)
    ensures
        fd >= fds.view().len() ==> r == Err::<FileHandle, isize>(EBADF),
        fd < fds.view().len() && fds.view()[fd as int] is None ==> r == Err::<FileHandle, isize>(-1isize),
        fd_open(fds.view(), fd) && !fds.view()[fd as int]->0.writable ==> r == Err::<FileHandle, isize>(EBADF),
        fd_open(fds.view(), fd) && fds.view()[fd as int]->0.writable ==> r == Ok::<FileHandle, isize>(fds.view()[fd as int]->0),
{
    if fd >= fds.len() {
        return Err(EBADF);
    }
    match fds.get(fd) {
        Some(f) => {
            if f.writable {
                Ok(*f)
            } else {
                Err(EBADF)
            }
        },
        None => Err(-1),
    }
}

/// The file to seek (or to read the status of) through descriptor `fd`:
/// `EBADF` when `fd` is past the table, -1 when the slot is free.
pub fn sys_lseek(fds: &FdTable<FileHandle>, fd: usize) -> (r: Result<FileHandle, isize>)
    ensures
        fd >= fds.view().len() ==> r == Err::<FileHandle, isize>(EBADF),
        fd < fds.view().len() && fds.view()[fd as int] is None ==> r == Err::<FileHandle, isize>(-1isize),
        fd_open(fds.view(), fd) ==> r == Ok::<FileHandle, isize>(fds.view()[fd as int]->0),
{
    if fd >= fds.len() {
        return Err(EBADF);
    }
    match fds.get(fd) {
        Some(f) => Ok(*f),
        None => Err(-1),
    }
}

/// Puts the two ends of a new pipe in the two lowest free descriptors, the
/// read end first; returns both descriptors.
pub fn sys_pipe(fds: &mut FdTable<FileHandle>, read_end: FileHandle, write_end: FileHandle) -> (r: (usize, usize))
    requires
        old(fds).view().len() + 2 < usize::MAX,
    ensures
        r.0 != r.1,
        r.0 <= old(fds).view().len(),
        forall|i: int| 0 <= i < r.0 ==> #[trigger] old(fds).view()[i] is Some,
        r.0 < old(fds).view().len() ==> old(fds).view()[r.0 as int] is None,
        final(fds).view()[r.0 as int] == Some(read_end),
        final(fds).view()[r.1 as int] == Some(write_end),
        final(fds).view().len() <= old(fds).view().len() + 2,
        forall|i: int| 0 <= i < old(fds).view().len() && i != r.0 && i != r.1 ==> #[trigger] final(fds).view()[i]
            == old(fds).view()[i],
{
    let read_fd = fds.alloc_fd();
    fds.set(read_fd, Some(read_end));
    let write_fd = fds.alloc_fd();
    fds.set(write_fd, Some(write_end));
    (read_fd, write_fd)
}

/// What `open` does next.
#[derive(Copy, Clone, Debug, PartialEq, Eq, Structural)]
pub enum OpenAction {
    /// Cut the file found to length 0.
    Truncate,
    /// Create the missing file.
    Create,
    /// Put the file in a descriptor, its offset at `offset`.
    Install { offset: u64 },
    /// Return this error.
    Fail(isize),
}

/// The next step of `open` once the file system looked the path up: a
/// file of `size` bytes was found, or not.
pub fn open_after_lookup(flags: &OpenFlags, lookup: &Result<u64, VfsErrorKind>) -> (r: OpenAction)
    requires
        *lookup matches Err(e) ==> !(e is Other),
    ensures
        *lookup matches Ok(size) ==> r == (if flags.bits & 0x200 != 0 {
            OpenAction::Truncate
        } else {
            OpenAction::Install { offset: if flags.bits & 0x400 != 0 { size } else { 0 } }
        }),
        *lookup matches Err(e) ==> r == (if flags.bits & 0x40 != 0 {
            OpenAction::Create
        } else {
            OpenAction::Fail(fs_errno(e))
        }),
{
    match lookup {
        Ok(size) => {
            if flags.truncate() {
                OpenAction::Truncate
            } else {
                OpenAction::Install { offset: if flags.append() { *size } else { 0 } }
            }
        },
        Err(e) => {
            if flags.create() {
                OpenAction::Create
            } else {
                OpenAction::Fail(report_fs_err(e))
            }
        },
    }
}

/// The next step of `open` once the file was cut: its size is now `size`.
pub fn open_after_truncate(flags: &OpenFlags, res: &Result<u64, VfsErrorKind>) -> (r: OpenAction)
    requires
        *res matches Err(e) ==> !(e is Other),
    ensures
        *res matches Ok(size) ==> r == (OpenAction::Install { offset: if flags.bits & 0x400 != 0 { size } else { 0 } }),
        *res matches Err(e) ==> r == OpenAction::Fail(fs_errno(e)),
{
    match res {
        Ok(size) => OpenAction::Install { offset: if flags.append() { *size } else { 0 } },
        Err(e) => OpenAction::Fail(report_fs_err(e)),
    }
}

/// The next step of `open` once the file was created.
pub fn open_after_create(res: &Result<(), VfsErrorKind>) -> (r: OpenAction)
    requires
        *res matches Err(e) ==> !(e is Other),
    ensures
        *res is Ok ==> r == (OpenAction::Install { offset: 0 }),
        *res matches Err(e) ==> r == OpenAction::Fail(fs_errno(e)),
{
    match res {
        Ok(()) => OpenAction::Install { offset: 0 },
        Err(e) => OpenAction::Fail(report_fs_err(e)),
    }
}

/// Puts the opened `file` in the lowest free descriptor and returns it: the
/// result of a successful `open`.
pub fn sys_open(fds: &mut FdTable<FileHandle>, file: FileHandle) -> (r: isize)
    requires
        old(fds).view().len() < isize::MAX,
    ensures
        0 <= r <= old(fds).view().len(),
        forall|i: int| 0 <= i < r ==> #[trigger] old(fds).view()[i] is Some,
        r < old(fds).view().len() ==> old(fds).view()[r as int] is None,
        final(fds).view() == (if r < old(fds).view().len() {
            old(fds).view()
        } else {
            old(fds).view().push(None)
        }).update(r as int, Some(file)),
{
    let fd = fds.alloc_fd();
    fds.set(fd, Some(file));
    fd as isize
}

/// What `unlinkat` removes, from what the file system says of the path:
/// its error number, or a directory (`true`) or a file to remove with 0 as
/// the result.
pub fn sys_unlinkat(meta: &Result<bool, VfsErrorKind>) -> (r: (isize, Option<bool>))
    requires
        *meta matches Err(e) ==> !(e is Other),
    ensures
        *meta matches Ok(is_dir) ==> r == (0isize, Some(is_dir)),
        *meta matches Err(e) ==> r == (fs_errno(e), None::<bool>),
{
    match meta {
        Err(e) => (report_fs_err(e), None),
        Ok(is_dir) => (0, Some(*is_dir)),
    }
}

/// The result of `linkat` from what the file system did.
pub fn sys_linkat(res: &Result<(), VfsErrorKind>) -> (r: isize)
    requires
        *res matches Err(e) ==> !(e is Other),
    ensures
        *res is Ok ==> r == 0,
        *res matches Err(e) ==> r == fs_errno(e),
{
    fs_result(res)
}

/// Asynchronous I/O contexts are not kept: destroying one succeeds.
pub fn sys_io_destroy(_args0: usize, _args1: usize, _args2: usize) -> (r: isize)
    ensures
        r == 0,
{
    0
}

/// The permission bits of a new directory: `EINVAL` when `mode` does not
/// fit in 16 bits.
pub fn sys_mkdirat(mode: usize) -> (r: Result<u16, isize>)
    ensures
        mode <= u16::MAX ==> r == Ok::<u16, isize>(mode as u16),
        mode > u16::MAX ==> r == Err::<u16, isize>(EINVAL),
{
    if mode > 0xffff {
        Err(EINVAL)
    } else {
        Ok(mode as u16)
    }
}

/// The absolute form of the user path `path`: the path itself when it
/// starts with a slash, else `in_cwd`, the working directory with `path`
/// appended, as the path type of the file system joins them.
pub fn build_abs_path(path: &[u8], in_cwd: &[u8]) -> (r: Vec<u8>)
    ensures
        path@.len() > 0 && path@[0] == 47u8 ==> r@ == path@,
        !(path@.len() > 0 && path@[0] == 47u8) ==> r@ == in_cwd@,
{
    let src = if path.len() > 0 && path[0] == 47 { path } else { in_cwd };
    let mut r: Vec<u8> = Vec::new();
    let mut i: usize = 0;
    while i < src.len()
        invariant
            i <= src.len(),
            r@ == src@.subrange(0, i as int),
        decreases src.len() - i,
    {
        r.push(src[i]);
        i = i + 1;
        assert(r@ =~= src@.subrange(0, i as int));
    }
    assert(src@.subrange(0, src@.len() as int) =~= src@);
    r
}

/// What `chdir` does with its path.
#[derive(Copy, Clone, Debug, PartialEq, Eq, Structural)]
pub enum ChdirPlan {
    /// "." : nothing.
    Stay,
    /// ".." : go up one level.
    Up,
    /// An absolute path: check it, then make it the directory.
    Replace,
    /// A relative path: go down into it, then check.
    Down,
}

/// The plan of `chdir` for the bytes of `path`.
pub fn chdir_plan(path: &[u8]) -> (r: ChdirPlan)
    ensures
        path@ == seq![46u8] ==> r == ChdirPlan::Stay,
        path@ == seq![46u8, 46u8] ==> r == ChdirPlan::Up,
        path@ != seq![46u8] && path@ != seq![46u8, 46u8] && path@.len() > 0 && path@[0] == 47u8 ==> r
            == ChdirPlan::Replace,
        path@ != seq![46u8] && path@ != seq![46u8, 46u8] && !(path@.len() > 0 && path@[0] == 47u8) ==> r == ChdirPlan::Down,
{
    if path.len() == 1 && path[0] == 46 {
        proof {
            assert(path@ =~= seq![46u8]);
        }
        ChdirPlan::Stay
    } else if path.len() == 2 && path[0] == 46 && path[1] == 46 {
        proof {
            assert(path@ =~= seq![46u8, 46u8]);
        }
        ChdirPlan::Up
    } else if path.len() > 0 && path[0] == 47 {
        proof {
            assert(path@ != seq![46u8]);
        }
        ChdirPlan::Replace
    } else {
        proof {
            if path@ == seq![46u8] {
                assert(path@.len() == 1 && path@[0] == 46u8);
            }
            if path@ == seq![46u8, 46u8] {
                assert(path@.len() == 2 && path@[0] == 46u8 && path@[1] == 46u8);
            }
        }
        ChdirPlan::Down
    }
}

/// The result of `chdir` for a path it had to check, from what the file
/// system says of it (a directory or not), and whether the step down into
/// a relative path must be undone.
pub fn chdir_checked(plan: ChdirPlan, meta: &Result<bool, VfsErrorKind>) -> (r: (isize, bool))
    requires
        plan == ChdirPlan::Replace || plan == ChdirPlan::Down,
        *meta matches Err(e) ==> !(e is Other),
    ensures
        *meta matches Err(e) ==> r == (fs_errno(e), false),
        *meta == Ok::<bool, VfsErrorKind>(false) ==> r == (ENOTDIR, plan == ChdirPlan::Down),
        *meta == Ok::<bool, VfsErrorKind>(true) ==> r == (0isize, false),
{
    match meta {
        Err(e) => (report_fs_err(e), false),
        Ok(is_dir) => {
            if *is_dir {
                (0, false)
            } else {
                (ENOTDIR, plan == ChdirPlan::Down)
            }
        },
    }
}

/// `getcwd` into a buffer of `max_len` bytes: `EINVAL` when the `cwd_len`
/// bytes of the path do not fit, else 0.
pub fn sys_getcwd(cwd_len: usize, max_len: usize) -> (r: isize)
    ensures
        cwd_len > max_len ==> r == EINVAL,
        cwd_len <= max_len ==> r == 0,
{
    if cwd_len > max_len {
        EINVAL
    } else {
        0
    }
}

/// The kinds of file a directory entry can be.
#[derive(Copy, Clone, Debug, PartialEq, Eq, Structural)]
pub enum VfsFileType {
    RegularFile,
    Directory,
    SymbolicLink,
    FIFO,
    CharDev,
    BlockDev,
    Socket,
}

/// The name of a directory entry as `listdir` shows it: executable regular
/// files in green, directories in bright blue, symbolic links in cyan (ANSI
/// colours), other files and sockets plain. Pipes and devices are not
/// listed.
pub open spec fn listed_name(kind: VfsFileType, user_exec: bool, name: Seq<char>) -> Seq<char> {
    match kind {
        VfsFileType::RegularFile => if user_exec {
            "\x1b[32m"@ + name + "\x1b[0m"@
        } else {
            name
        },
        VfsFileType::Directory => "\x1b[94m"@ + name + "\x1b[0m"@,
        VfsFileType::SymbolicLink => "\x1b[36m"@ + name + "\x1b[0m"@,
        _ => name,
    }
}

/// The name of a directory entry as `listdir` shows it.
pub fn colored_name(kind: VfsFileType, user_exec: bool, name: &str) -> (r: String)
    requires
        kind != VfsFileType::FIFO && kind != VfsFileType::CharDev && kind != VfsFileType::BlockDev,
    ensures
        r@ == listed_name(kind, user_exec, name@),
{
    match kind {
        VfsFileType::RegularFile => {
            if user_exec {
                let mut s = String::from_str("\x1b[32m");
                s.append(name);
                s.append("\x1b[0m");
                s
            } else {
                String::from_str(name)
            }
        },
        VfsFileType::Directory => {
            let mut s = String::from_str("\x1b[94m");
            s.append(name);
            s.append("\x1b[0m");
            s
        },
        VfsFileType::SymbolicLink => {
            let mut s = String::from_str("\x1b[36m");
            s.append(name);
            s.append("\x1b[0m");
            s
        },
        _ => String::from_str(name),
    }
}

} // verus!
