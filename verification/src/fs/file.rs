//! Open files as the kernel sees them: errors of the file system, open
//! flags, the offset of an open inode, and the handles that descriptors
//! hold.
use crate::syscall::syserr::{EEXIST, EFBIG, EINVAL, EISDIR, EMLINK, ENAMETOOLONG, ENOENT, ENOSPC, ENOTDIR, EPERM, ESPIPE};
use vstd::prelude::*;

verus! {

/// The kinds of input/output error of the file system.
#[derive(Copy, Clone, Debug, PartialEq, Eq, Structural)]
pub enum IOErrorKind {
    NotFound,
    PermissionDenied,
    AlreadyExists,
    NotADirectory,
    NotAFile,
    NotASymlink,
    TooLongTargetSymlink,
    IsADirectory,
    TooLargeFile,
    TooLongFileName,
    TooManyLinks,
    InvalidFilename,
    NoFreeBlocks,
    NoFreeInodes,
    BadSeek,
}

/// The errors of the virtual file system.
#[derive(Clone, Debug, PartialEq, Eq)]
pub enum VfsErrorKind {
    IOError(IOErrorKind),
    FileNotFound,
    InvalidPath(String),
    DirectoryExists,
    FileExists,
    NotSupported,
    /// Any other error.
    Other(String),
}

/// The error number that an input/output error stands for.
pub open spec fn io_errno(k: IOErrorKind) -> isize {
    match k {
        IOErrorKind::NotFound => ENOENT,
        IOErrorKind::PermissionDenied => EPERM,
        IOErrorKind::AlreadyExists => EEXIST,
        IOErrorKind::NotADirectory => ENOTDIR,
        IOErrorKind::NotAFile => EINVAL,
        IOErrorKind::NotASymlink => EINVAL,
        IOErrorKind::TooLongTargetSymlink => EINVAL,
        IOErrorKind::IsADirectory => EISDIR,
        IOErrorKind::TooLargeFile => EFBIG,
        IOErrorKind::TooLongFileName => ENAMETOOLONG,
        IOErrorKind::TooManyLinks => EMLINK,
        IOErrorKind::InvalidFilename => EINVAL,
        IOErrorKind::NoFreeBlocks => ENOSPC,
        IOErrorKind::NoFreeInodes => ENOSPC,
        IOErrorKind::BadSeek => ESPIPE,
    }
}

/// The error number that a file system error stands for; there is none for
/// `Other`.
pub open spec fn fs_errno(e: VfsErrorKind) -> isize {
    match e {
        VfsErrorKind::IOError(k) => io_errno(k),
        VfsErrorKind::FileNotFound => ENOENT,
        VfsErrorKind::InvalidPath(_) => EINVAL,
        VfsErrorKind::DirectoryExists => EEXIST,
        VfsErrorKind::FileExists => EEXIST,
        VfsErrorKind::NotSupported => EPERM,
        VfsErrorKind::Other(_) => 0,
    }
}

/// The error number that a system call returns for a file system error,
/// which must be one that has a number.
pub fn report_fs_err(err: &VfsErrorKind) -> (r: isize)
    requires
        !(err is Other),
    ensures
        r == fs_errno(*err),
{
    match err {
        VfsErrorKind::IOError(k) => match k {
            IOErrorKind::NotFound => ENOENT,
            IOErrorKind::PermissionDenied => EPERM,
            IOErrorKind::AlreadyExists => EEXIST,
            IOErrorKind::NotADirectory => ENOTDIR,
            IOErrorKind::NotAFile => EINVAL,
            IOErrorKind::NotASymlink => EINVAL,
            IOErrorKind::TooLongTargetSymlink => EINVAL,
            IOErrorKind::IsADirectory => EISDIR,
            IOErrorKind::TooLargeFile => EFBIG,
            IOErrorKind::TooLongFileName => ENAMETOOLONG,
            IOErrorKind::TooManyLinks => EMLINK,
            IOErrorKind::InvalidFilename => EINVAL,
            IOErrorKind::NoFreeBlocks => ENOSPC,
            IOErrorKind::NoFreeInodes => ENOSPC,
            IOErrorKind::BadSeek => ESPIPE,
        },
        VfsErrorKind::FileNotFound => ENOENT,
        VfsErrorKind::InvalidPath(_) => EINVAL,
        VfsErrorKind::DirectoryExists => EEXIST,
        VfsErrorKind::FileExists => EEXIST,
        VfsErrorKind::NotSupported => EPERM,
        VfsErrorKind::Other(_) => 0,
    }
}

/// Where a seek counts from.
#[derive(Copy, Clone, Debug, PartialEq, Eq, Structural)]
pub enum SeekFrom {
    Start,
    Current,
    End,
}

impl SeekFrom {
    /// The origin that `whence` (0, 1 or 2) names.
    pub fn from(value: usize) -> (r: Self)
        requires
            value <= 2,
        ensures
            value == 0 ==> r == SeekFrom::Start,
            value == 1 ==> r == SeekFrom::Current,
            value == 2 ==> r == SeekFrom::End,
    {
        if value == 0 {
            SeekFrom::Start
        } else if value == 1 {
            SeekFrom::Current
        } else {
            SeekFrom::End
        }
    }
}

/// The flags of `open`: the access mode in the two low bits (read only,
/// write only, read and write), then create, truncate and append.
#[derive(Copy, Clone, Debug, PartialEq, Eq, Structural)]
pub struct OpenFlags {
    pub bits: u32,
}

impl OpenFlags {
    /// The flags of `bits`, when it sets only known flags.
    pub fn from_bits(bits: u32) -> (r: Option<Self>)
        ensures
            r == (if bits & !0x643u32 == 0 { Some(OpenFlags { bits }) } else { None }),
    {
        if bits & !0x643u32 == 0 {
            Some(OpenFlags { bits })
        } else {
            None
        }
    }

    /// Opened for reading: the access mode is not write only.
    pub fn read(&self) -> (r: bool)
        ensures
            r == (self.bits & 3 != 1),
    {
        self.bits & 3 != 1
    }

    /// Opened for writing: the access mode is write only or read and write.
    pub fn write(&self) -> (r: bool)
        ensures
            r == (self.bits & 3 == 1 || self.bits & 3 == 2),
    {
        self.bits & 3 == 1 || self.bits & 3 == 2
    }

    /// Create the file when it is missing.
    pub fn create(&self) -> (r: bool)
        ensures
            r == (self.bits & 0x40 != 0),
    {
        self.bits & 0x40 != 0
    }

    /// Cut the file to length 0 on opening.
    pub fn truncate(&self) -> (r: bool)
        ensures
            r == (self.bits & 0x200 != 0),
    {
        self.bits & 0x200 != 0
    }

    /// Start at the end of the file.
    pub fn append(&self) -> (r: bool)
        ensures
            r == (self.bits & 0x400 != 0),
    {
        self.bits & 0x400 != 0
    }
}

/// The mutable part of an open inode: the offset of the next read or
/// write.
pub struct OSInodeInner {
    pub offset: usize,
}

/// The offset a seek moves to from `cur` in a file of `size` bytes, or
/// `None` when it would fall before the start.
pub open spec fn seek_target(cur: int, size: int, offset: int, whence: SeekFrom) -> Option<int> {
    let base = match whence {
        SeekFrom::Start => 0,
        SeekFrom::Current => cur,
        SeekFrom::End => size,
    };
    if base + offset < 0 {
        None
    } else {
        Some(base + offset)
    }
}

/// Seeking lands where its origin says: from the start at the offset itself
/// (refused when negative), from the current offset at that offset moved by
/// the given amount, from the end at the file's size moved by it; a seek
/// by 0 from the current offset stays, and two seeks from the current
/// offset add up when neither falls before the start.
pub proof fn lemma_seek_lands(cur: int, size: int, offset: int, more: int)
    requires
        cur >= 0,
        size >= 0,
    ensures
        offset >= 0 ==> seek_target(cur, size, offset, SeekFrom::Start) == Some(offset),
        offset < 0 ==> seek_target(cur, size, offset, SeekFrom::Start) is None,
        cur + offset >= 0 <==> seek_target(cur, size, offset, SeekFrom::Current) == Some(cur + offset),
        size + offset >= 0 <==> seek_target(cur, size, offset, SeekFrom::End) == Some(size + offset),
        seek_target(cur, size, 0, SeekFrom::Current) == Some(cur),
        cur + offset >= 0 && cur + offset + more >= 0 ==> seek_target(
            cur + offset,
            size,
            more,
            SeekFrom::Current,
        ) == seek_target(cur, size, offset + more, SeekFrom::Current),
{
}

impl OSInodeInner {
    /// Moves the offset by `offset` from the origin `whence` names (0:
    /// start, 1: current offset, 2: end of the `size` bytes of the file);
    /// a target before the start is a bad seek and leaves the offset.
    pub fn seek(&mut self, offset: isize, whence: usize, size: u64) -> (r: Result<(), VfsErrorKind>)
        requires
            whence <= 2,
            old(self).offset <= isize::MAX,
            size <= isize::MAX,
            old(self).offset + offset <= isize::MAX,
            size + offset <= isize::MAX,
        ensures
            ({
                let w = if whence == 0 { SeekFrom::Start } else if whence == 1 { SeekFrom::Current } else { SeekFrom::End };
                match seek_target(old(self).offset as int, size as int, offset as int, w) {
                    None => r == Err::<(), VfsErrorKind>(VfsErrorKind::IOError(IOErrorKind::BadSeek)) && final(self).offset
                        == old(self).offset,
                    Some(t) => r is Ok && final(self).offset == t,
                }
            }),
    {
        match SeekFrom::from(whence) {
            SeekFrom::Start => {
                if offset < 0 {
                    return Err(VfsErrorKind::IOError(IOErrorKind::BadSeek));
                }
                self.offset = offset as usize;
            },
            SeekFrom::Current => {
                let cur = self.offset as isize;
                if cur + offset < 0 {
                    return Err(VfsErrorKind::IOError(IOErrorKind::BadSeek));
                }
                self.offset = (cur + offset) as usize;
            },
            SeekFrom::End => {
                let end = size as isize;
                if end + offset < 0 {
                    return Err(VfsErrorKind::IOError(IOErrorKind::BadSeek));
                }
                self.offset = (end + offset) as usize;
            },
        }
        Ok(())
    }
}

/// What a descriptor holds: which open file, and whether it may be read
/// and written.
#[derive(Copy, Clone, Debug, PartialEq, Eq, Structural)]
pub struct FileHandle {
    pub id: u64,
    pub readable: bool,
    pub writable: bool,
}

impl FileHandle {
    /// The console's input, the first descriptor of a process: identifier
    /// 0, read only.
    pub fn stdin() -> (r: Self)
        ensures
            r == (FileHandle { id: 0, readable: true, writable: false }),
    {
        FileHandle { id: 0, readable: true, writable: false }
    }

    /// The console's output: identifier 1, write only.
    pub fn stdout() -> (r: Self)
        ensures
            r == (FileHandle { id: 1, readable: false, writable: true }),
    {
        FileHandle { id: 1, readable: false, writable: true }
    }

    /// The console's error output: identifier 2, write only.
    pub fn stderr() -> (r: Self)
        ensures
            r == (FileHandle { id: 2, readable: false, writable: true }),
    {
        FileHandle { id: 2, readable: false, writable: true }
    }
}

} // verus!
