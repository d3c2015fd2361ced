//! The standard streams: the console seen as files.
use super::file::VfsErrorKind;
use super::userbuf::{flat, lemma_flat_len, piece_start, total_len, UserBuffer};
use vstd::prelude::*;

verus! {

/// What every open file tells: whether it may be read and written.
pub trait File {
    /// Whether the file may be read.
    fn readable(&self) -> (r: bool);

    /// Whether the file may be written.
    fn writable(&self) -> (r: bool);
}

/// Standard input: the console keyboard.
pub struct Stdin;

/// Standard output: the console.
pub struct Stdout;

/// Standard error: the console too.
pub struct Stderr;

impl File for Stdin {
    fn readable(&self) -> (r: bool)
        ensures
            r,
    {
        true
    }

    fn writable(&self) -> (r: bool)
        ensures
            !r,
    {
        false
    }
}

impl File for Stdout {
    fn readable(&self) -> (r: bool)
        ensures
            !r,
    {
        false
    }

    fn writable(&self) -> (r: bool)
        ensures
            r,
    {
        true
    }
}

impl File for Stderr {
    fn readable(&self) -> (r: bool)
        ensures
            !r,
    {
        false
    }

    fn writable(&self) -> (r: bool)
        ensures
            r,
    {
        true
    }
}

impl Stdin {
    /// Reads one character: `c`, the code the console returned, goes into
    /// the buffer, which holds exactly one byte. A code of 0 means nothing
    /// was read and is not accepted.
    pub fn read(&self, user_buf: &mut UserBuffer, c: usize) -> (r: Result<usize, VfsErrorKind>)
        requires
            total_len(old(user_buf).pieces()) == 1,
            c != 0,
        ensures
            r == Ok::<usize, VfsErrorKind>(1),
            final(user_buf).pieces().len() == old(user_buf).pieces().len(),
            forall|i: int| 0 <= i < old(user_buf).pieces().len() ==> {
                let st = piece_start(old(user_buf).pieces(), i);
                &&& (#[trigger] final(user_buf).pieces()[i]).len() == old(user_buf).pieces()[i].len()
                &&& forall|j: int| 0 <= j < old(user_buf).pieces()[i].len() ==> final(user_buf).pieces()[i][j]
                    == if st + j < 1 { c as u8 } else { old(user_buf).pieces()[i][j] }
            },
    {
        let ch: u8 = #[verifier::truncate] (c as u8);
        let content: Vec<u8> = vec![ch];
        let ghost before = user_buf.pieces();
        assert(content@.len() == 1 && content@[0] == c as u8);
        user_buf.write(content.as_slice());
        proof {
            assert forall|i: int| 0 <= i < before.len() implies piece_start(before, i) >= 0 by {
                lemma_flat_len(before.take(i));
            }
        }
        Ok(1)
    }
}

/// The bytes of the buffer put end to end: what a write to the console
/// prints.
fn buffer_bytes(user_buf: &UserBuffer) -> (r: Vec<u8>)
    ensures
        r@ == flat(user_buf.pieces()),
{
    let mut out: Vec<u8> = Vec::new();
    let mut i: usize = 0;
    while i < user_buf.buffers.len()
        invariant
            i <= user_buf.pieces().len(),
            user_buf.buffers@.len() == user_buf.pieces().len(),
            out@ == flat(user_buf.pieces().take(i as int)),
        decreases user_buf.buffers@.len() - i,
    {
        let piece = &user_buf.buffers[i];
        let mut j: usize = 0;
        let ghost before = out@;
        while j < piece.len()
            invariant
                j <= piece@.len(),
                out@ == before + piece@.take(j as int),
            decreases piece@.len() - j,
        {
            out.push(piece[j]);
            proof {
                assert(piece@.take(j as int + 1) =~= piece@.take(j as int).push(piece@[j as int]));
            }
            j = j + 1;
        }
        proof {
            let s = user_buf.pieces();
            assert(s.take(i as int + 1).drop_last() =~= s.take(i as int));
            assert(s[i as int] == piece@);
            assert(piece@.take(piece@.len() as int) =~= piece@);
        }
        i = i + 1;
    }
    proof {
        assert(user_buf.pieces().take(user_buf.pieces().len() as int) =~= user_buf.pieces());
    }
    out
}

impl Stdout {
    /// Writes the buffer: returns the bytes to print, in order, and the
    /// number of bytes written, which is all of them.
    pub fn write(&self, user_buf: &UserBuffer) -> (r: (Vec<u8>, Result<usize, VfsErrorKind>))
        requires
            total_len(user_buf.pieces()) <= usize::MAX,
        ensures
            r.0@ == flat(user_buf.pieces()),
            r.1 == Ok::<usize, VfsErrorKind>(total_len(user_buf.pieces()) as usize),
    {
        let bytes = buffer_bytes(user_buf);
        let n = user_buf.len();
        (bytes, Ok(n))
    }
}

impl Stderr {
    /// Writes the buffer: returns the bytes to print, in order, and the
    /// number of bytes written, which is all of them.
    pub fn write(&self, user_buf: &UserBuffer) -> (r: (Vec<u8>, Result<usize, VfsErrorKind>))
        requires
            total_len(user_buf.pieces()) <= usize::MAX,
        ensures
            r.0@ == flat(user_buf.pieces()),
            r.1 == Ok::<usize, VfsErrorKind>(total_len(user_buf.pieces()) as usize),
    {
        let bytes = buffer_bytes(user_buf);
        let n = user_buf.len();
        (bytes, Ok(n))
    }
}

} // verus!
