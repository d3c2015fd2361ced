use kos::fs::file::{report_fs_err, IOErrorKind, OSInodeInner, OpenFlags, SeekFrom, VfsErrorKind};
use kos::fs::pipe::{read_step, write_step, PipeRingBuffer, PipeStep, RING_BUFFER_SIZE};
use kos::fs::userbuf::UserBuffer;
use kos::fs::stdio::{File, Stderr, Stdin, Stdout};
use kos::fs::file::FileHandle;
use kos::fs::pipes::{pipe_id, PipeTable};
use kos::process::fdtable::FdTable;
use kos::syscall::fs::{
    build_abs_path, chdir_checked, chdir_plan, colored_name, fs_result, open_after_create, open_after_lookup,
    open_after_truncate, sys_close, sys_dup, sys_ftruncate, sys_getcwd, sys_io_destroy, sys_linkat, sys_lseek,
    sys_mkdirat, sys_open, sys_pipe, sys_read, sys_unlinkat, sys_write, ChdirPlan, OpenAction, VfsFileType,
};
use kos::syscall::syserr::{EBADF, EEXIST, EINVAL, ENOENT, ENOTDIR, EPERM, ESPIPE};

fn stdio() -> FdTable<FileHandle> {
    FdTable::with_stdio(
        FileHandle { id: 0, readable: true, writable: false },
        FileHandle { id: 1, readable: false, writable: true },
        FileHandle { id: 2, readable: false, writable: true },
    )
}

#[test]
fn fs_errors_to_numbers() {
    assert_eq!(report_fs_err(&VfsErrorKind::FileNotFound), ENOENT);
    assert_eq!(report_fs_err(&VfsErrorKind::IOError(IOErrorKind::NotFound)), ENOENT);
    assert_eq!(report_fs_err(&VfsErrorKind::IOError(IOErrorKind::BadSeek)), ESPIPE);
    assert_eq!(report_fs_err(&VfsErrorKind::IOError(IOErrorKind::NotADirectory)), ENOTDIR);
    assert_eq!(report_fs_err(&VfsErrorKind::InvalidPath(String::from("x"))), EINVAL);
    assert_eq!(report_fs_err(&VfsErrorKind::FileExists), EEXIST);
    assert_eq!(report_fs_err(&VfsErrorKind::NotSupported), EPERM);
    assert_eq!(fs_result(&Ok(())), 0);
    assert_eq!(fs_result(&Err(VfsErrorKind::DirectoryExists)), EEXIST);
}

#[test]
fn seek_origins() {
    assert_eq!(SeekFrom::from(0), SeekFrom::Start);
    assert_eq!(SeekFrom::from(1), SeekFrom::Current);
    assert_eq!(SeekFrom::from(2), SeekFrom::End);
    let mut inode = OSInodeInner { offset: 10 };
    assert!(inode.seek(5, 1, 100).is_ok());
    assert_eq!(inode.offset, 15);
    assert!(inode.seek(-20, 2, 100).is_ok());
    assert_eq!(inode.offset, 80);
    assert_eq!(inode.seek(-1, 0, 100), Err(VfsErrorKind::IOError(IOErrorKind::BadSeek)));
    assert_eq!(inode.offset, 80);
}

#[test]
fn open_flags_and_decisions() {
    assert!(OpenFlags::from_bits(0x1000).is_none());
    let rdonly = OpenFlags::from_bits(0).unwrap();
    assert!(rdonly.read() && !rdonly.write());
    let wr_create_trunc = OpenFlags::from_bits(0x1 | 0x40 | 0x200).unwrap();
    assert!(!wr_create_trunc.read() && wr_create_trunc.write() && wr_create_trunc.create() && wr_create_trunc.truncate());
    let append = OpenFlags::from_bits(0x2 | 0x400).unwrap();
    assert!(append.read() && append.write() && append.append());
    assert_eq!(open_after_lookup(&append, &Ok(123)), OpenAction::Install { offset: 123 });
    assert_eq!(open_after_lookup(&rdonly, &Ok(123)), OpenAction::Install { offset: 0 });
    assert_eq!(open_after_lookup(&wr_create_trunc, &Ok(123)), OpenAction::Truncate);
    assert_eq!(open_after_lookup(&wr_create_trunc, &Err(VfsErrorKind::FileNotFound)), OpenAction::Create);
    assert_eq!(open_after_lookup(&rdonly, &Err(VfsErrorKind::FileNotFound)), OpenAction::Fail(ENOENT));
    assert_eq!(open_after_create(&Err(VfsErrorKind::NotSupported)), OpenAction::Fail(EPERM));
    let _ = open_after_truncate(&wr_create_trunc, &Ok(0));
}

#[test]
fn descriptor_calls() {
    let mut fds = stdio();
    let f = FileHandle { id: 7, readable: true, writable: false };
    assert_eq!(sys_open(&mut fds, f), 3);
    assert_eq!(sys_write(&fds, 3), Err(EBADF));
    assert_eq!(sys_read(&fds, 3), Ok(f));
    assert_eq!(sys_write(&fds, 1), Ok(FileHandle { id: 1, readable: false, writable: true }));
    assert_eq!(sys_read(&fds, 9), Err(EBADF));
    assert_eq!(sys_ftruncate(&fds, 3), Err(EBADF));
    assert_eq!(sys_lseek(&fds, 3), Ok(f));
    assert_eq!(sys_dup(&mut fds, 3), 4);
    assert_eq!(sys_close(&mut fds, 3), 0);
    assert_eq!(sys_close(&mut fds, 3), EBADF);
    assert_eq!(sys_lseek(&fds, 3), Err(-1));
    assert_eq!(sys_dup(&mut fds, 3), EBADF);
    let (r, w) = sys_pipe(&mut fds, FileHandle { id: 8, readable: true, writable: false }, FileHandle { id: 9, readable: false, writable: true });
    assert_eq!((r, w), (3, 5));
}

#[test]
fn path_calls() {
    assert_eq!(chdir_plan(b"."), ChdirPlan::Stay);
    assert_eq!(chdir_plan(b".."), ChdirPlan::Up);
    assert_eq!(chdir_plan(b"/usr"), ChdirPlan::Replace);
    assert_eq!(chdir_plan(b"bin"), ChdirPlan::Down);
    assert_eq!(chdir_checked(ChdirPlan::Down, &Ok(false)), (ENOTDIR, true));
    assert_eq!(chdir_checked(ChdirPlan::Replace, &Ok(false)), (ENOTDIR, false));
    assert_eq!(chdir_checked(ChdirPlan::Down, &Ok(true)), (0, false));
    assert_eq!(chdir_checked(ChdirPlan::Down, &Err(VfsErrorKind::FileNotFound)), (ENOENT, false));
    assert_eq!(build_abs_path(b"/etc/passwd", b"/home/etc/passwd"), b"/etc/passwd".to_vec());
    assert_eq!(build_abs_path(b"notes", b"/home/notes"), b"/home/notes".to_vec());
    assert_eq!(sys_getcwd(5, 4), EINVAL);
    assert_eq!(sys_getcwd(4, 4), 0);
    assert_eq!(sys_mkdirat(0o755), Ok(0o755));
    assert_eq!(sys_mkdirat(0x1_0000), Err(EINVAL));
    assert_eq!(sys_unlinkat(&Ok(true)), (0, Some(true)));
    assert_eq!(sys_unlinkat(&Err(VfsErrorKind::FileNotFound)), (ENOENT, None));
    assert_eq!(sys_linkat(&Ok(())), 0);
    assert_eq!(sys_io_destroy(1, 2, 3), 0);
}

#[test]
fn listdir_names() {
    assert_eq!(colored_name(VfsFileType::Directory, false, "bin"), "\x1b[94mbin\x1b[0m");
    assert_eq!(colored_name(VfsFileType::RegularFile, true, "sh"), "\x1b[32msh\x1b[0m");
    assert_eq!(colored_name(VfsFileType::RegularFile, false, "a.txt"), "a.txt");
    assert_eq!(colored_name(VfsFileType::SymbolicLink, false, "l"), "\x1b[36ml\x1b[0m");
    assert_eq!(colored_name(VfsFileType::Socket, false, "s"), "s");
}

#[test]
fn pipe_moves_bytes_in_order() {
    let mut ring = PipeRingBuffer::new();
    assert_eq!(ring.available_read(), 0);
    assert_eq!(ring.available_write(), RING_BUFFER_SIZE);
    let src = vec![1u8, 2, 3, 4, 5];
    assert_eq!(write_step(&mut ring, &src, 0), (PipeStep::Done(5), 5));
    assert_eq!(ring.available_read(), 5);
    let mut dst = Vec::new();
    assert_eq!(read_step(&mut ring, &mut dst, 3, false), PipeStep::Done(3));
    assert_eq!(dst, vec![1, 2, 3]);
    let mut dst2 = Vec::new();
    assert_eq!(read_step(&mut ring, &mut dst2, 10, false), PipeStep::Wait);
    assert_eq!(dst2, vec![4, 5]);
    assert_eq!(read_step(&mut ring, &mut dst2, 10, false), PipeStep::Wait);
    assert_eq!(read_step(&mut ring, &mut dst2, 10, true), PipeStep::Done(2));
}

#[test]
fn pipe_writer_waits_when_full() {
    let mut ring = PipeRingBuffer::new();
    let big = vec![9u8; RING_BUFFER_SIZE + 10];
    assert_eq!(write_step(&mut ring, &big, 0), (PipeStep::Wait, RING_BUFFER_SIZE));
    assert_eq!(ring.available_write(), 0);
    assert_eq!(write_step(&mut ring, &big, RING_BUFFER_SIZE), (PipeStep::Wait, RING_BUFFER_SIZE));
    assert_eq!(ring.read_byte(), 9);
    ring.write_byte(1);
    assert_eq!(ring.available_read(), RING_BUFFER_SIZE);
}

#[test]
fn user_buffer_pieces() {
    let mut buf = UserBuffer::new(vec![vec![0u8; 3], vec![0u8; 2], vec![0u8; 4]]);
    assert_eq!(buf.len(), 9);
    buf.write(&[1, 2, 3, 4, 5, 6]);
    assert_eq!(buf.buffers, vec![vec![1, 2, 3], vec![4, 5], vec![6, 0, 0, 0]]);
    let mut it = buf.into_iter();
    assert_eq!(it.next(), Some((0, 0)));
    assert_eq!(it.next(), Some((0, 1)));
    assert_eq!(it.next(), Some((0, 2)));
    assert_eq!(it.next(), Some((1, 0)));
}

#[test]
fn standard_streams() {
    assert!(Stdin.readable() && !Stdin.writable());
    assert!(!Stdout.readable() && Stdout.writable());
    assert!(!Stderr.readable() && Stderr.writable());
    let mut buf = UserBuffer::new(vec![vec![], vec![0u8]]);
    assert_eq!(Stdin.read(&mut buf, 0x161), Ok(1));
    assert_eq!(buf.buffers, vec![vec![], vec![0x61u8]]);
    let out = UserBuffer::new(vec![b"hel".to_vec(), b"".to_vec(), b"lo".to_vec()]);
    assert_eq!(Stdout.write(&out), (b"hello".to_vec(), Ok(5)));
    assert_eq!(Stderr.write(&out), (b"hello".to_vec(), Ok(5)));
}

#[test]
fn ring_counts_add_up_to_its_size() {
    let mut ring = PipeRingBuffer::new();
    assert_eq!(ring.available_read() + ring.available_write(), RING_BUFFER_SIZE);
    for i in 0..RING_BUFFER_SIZE {
        ring.write_byte(i as u8);
        assert_eq!(ring.available_read(), i + 1);
        assert_eq!(ring.available_read() + ring.available_write(), RING_BUFFER_SIZE);
    }
    assert_eq!(ring.available_write(), 0);
    for _ in 0..10 {
        ring.read_byte();
    }
    assert_eq!(ring.available_read(), RING_BUFFER_SIZE - 10);
    assert_eq!(ring.available_write(), 10);
}

#[test]
fn standard_handles() {
    assert_eq!(FileHandle::stdin(), FileHandle { id: 0, readable: true, writable: false });
    assert_eq!(FileHandle::stdout(), FileHandle { id: 1, readable: false, writable: true });
    assert_eq!(FileHandle::stderr(), FileHandle { id: 2, readable: false, writable: true });
    let fds = FdTable::with_stdio(FileHandle::stdin(), FileHandle::stdout(), FileHandle::stderr());
    assert_eq!(fds.len(), 3);
}

#[test]
fn pipe_table_counts_ends() {
    let mut pipes = PipeTable::new();
    assert!(pipes.has_room());
    let (r, w) = pipes.make_pipe();
    assert_eq!(r, FileHandle { id: 4, readable: true, writable: false });
    assert_eq!(w, FileHandle { id: 5, readable: false, writable: true });
    assert_eq!(pipe_id(r), Some(4));
    assert_eq!(pipe_id(w), Some(4));
    assert_eq!(pipe_id(FileHandle::stdout()), None);
    assert_eq!(pipes.ends(4), Some((1, 1)));
    pipes.add_end(w);
    assert_eq!(pipes.ends(4), Some((1, 2)));
    pipes.drop_end(w);
    pipes.drop_end(w);
    assert_eq!(pipes.ends(4), Some((1, 0)));
    // the console is no pipe: nothing changes
    pipes.add_end(FileHandle::stdin());
    assert_eq!(pipes.ends(4), Some((1, 0)));
    pipes.drop_end(r);
    assert_eq!(pipes.ends(4), None);
    let (r2, _) = pipes.make_pipe();
    assert_eq!(r2.id, 6);
}

#[test]
fn pipe_table_moves_bytes() {
    let mut pipes = PipeTable::new();
    let (r, w) = pipes.make_pipe();
    let src = b"hello".to_vec();
    assert_eq!(pipes.write(4, &src, 0), Some((PipeStep::Done(5), 5)));
    assert_eq!(pipes.write(8, &src, 0), None);
    let mut dst = Vec::new();
    assert_eq!(pipes.read(4, &mut dst, 3), Some(PipeStep::Done(3)));
    assert_eq!(dst, b"hel".to_vec());
    let mut rest = Vec::new();
    assert_eq!(pipes.read(4, &mut rest, 4), Some(PipeStep::Wait));
    assert_eq!(rest, b"lo".to_vec());
    // an empty ring ends a read only once no descriptor holds the write end
    pipes.drop_end(w);
    assert_eq!(pipes.read(4, &mut rest, 4), Some(PipeStep::Done(2)));
    // a full ring makes a writer wait while a reader is left, and ends the
    // write at once when none is
    let (r2, _w2) = pipes.make_pipe();
    let big = vec![7u8; RING_BUFFER_SIZE + 10];
    assert_eq!(pipes.write(r2.id, &big, 0), Some((PipeStep::Wait, RING_BUFFER_SIZE)));
    pipes.drop_end(r2);
    assert_eq!(pipes.write(r2.id, &big, RING_BUFFER_SIZE), Some((PipeStep::Done(RING_BUFFER_SIZE), RING_BUFFER_SIZE)));
    assert_eq!(pipes.ends(r.id), Some((1, 0)));
}
