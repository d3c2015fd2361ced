//! A buffer of user memory, seen as the list of its pieces in the pages
//! that hold it.
use vstd::prelude::*;

verus! {

/// The number of bytes in all pieces.
pub open spec fn total_len(s: Seq<Seq<u8>>) -> int
    decreases s.len(),
{
    if s.len() == 0 {
        0
    } else {
        total_len(s.drop_last()) + s.last().len()
    }
}

/// The position in the whole buffer where piece `i` starts.
pub open spec fn piece_start(s: Seq<Seq<u8>>, i: int) -> int {
    total_len(s.take(i))
}

/// The pieces put end to end.
pub open spec fn flat(s: Seq<Seq<u8>>) -> Seq<u8>
    decreases s.len(),
{
    if s.len() == 0 {
        Seq::empty()
    } else {
        flat(s.drop_last()) + s.last()
    }
}

/// The buffer put end to end has the total length.
pub proof fn lemma_flat_len(s: Seq<Seq<u8>>)
    ensures
        flat(s).len() == total_len(s),
        total_len(s) >= 0,
    decreases s.len(),
{
    if s.len() > 0 {
        lemma_flat_len(s.drop_last());
    }
}

/// Taking one more piece adds that piece's length.
pub proof fn lemma_piece_start_step(s: Seq<Seq<u8>>, i: int)
    requires
        0 <= i < s.len(),
    ensures
        piece_start(s, i + 1) == piece_start(s, i) + s[i].len(),
{
    assert(s.take(i + 1).drop_last() =~= s.take(i));
}

/// The whole buffer starts where a piece past the last would.
pub proof fn lemma_piece_start_all(s: Seq<Seq<u8>>)
    ensures
        piece_start(s, s.len() as int) == total_len(s),
{
    assert(s.take(s.len() as int) =~= s);
}

/// A buffer of user memory in pieces.
pub struct UserBuffer {
    pub buffers: Vec<Vec<u8>>,
}

impl UserBuffer {
    /// The pieces.
    pub open spec fn pieces(&self) -> Seq<Seq<u8>> {
        self.buffers@.map_values(|v: Vec<u8>| v@)
    }

    /// A buffer made of these pieces.
    pub fn new(buffers: Vec<Vec<u8>>) -> (r: Self)
        ensures
            r.buffers == buffers,
    {
        UserBuffer { buffers }
    }

    /// The number of bytes in the buffer.
    pub fn len(&self) -> (r: usize)
        requires
            total_len(self.pieces()) <= usize::MAX,
        ensures
            r == total_len(self.pieces()),
    {
        let mut total: usize = 0;
        let mut i: usize = 0;
        while i < self.buffers.len()
            invariant
                i <= self.buffers@.len(),
                total == piece_start(self.pieces(), i as int),
                total_len(self.pieces()) <= usize::MAX,
            decreases self.buffers@.len() - i,
        {
            proof {
                lemma_piece_start_step(self.pieces(), i as int);
                self.lemma_piece_start_bounded(i as int + 1);
            }
            total = total + self.buffers[i].len();
            i = i + 1;
        }
        proof {
            lemma_piece_start_all(self.pieces());
        }
        total
    }

    /// The start of a piece lies within the buffer.
    proof fn lemma_piece_start_bounded(&self, i: int)
        requires
            0 <= i <= self.pieces().len(),
        ensures
            0 <= piece_start(self.pieces(), i) <= total_len(self.pieces()),
        decreases self.pieces().len() - i,
    {
        let s = self.pieces();
        lemma_flat_len(s.take(i));
        if i < s.len() {
            self.lemma_piece_start_bounded(i + 1);
            lemma_piece_start_step(s, i);
        } else {
            lemma_piece_start_all(s);
        }
    }

    /// Copies `content` to the front of the buffer, piece after piece; the
    /// rest of the buffer is left as it was. `content` must fit.
    pub fn write(&mut self, content: &[u8])
        requires
            content@.len() <= total_len(old(self).pieces()),
        ensures
            final(self).pieces().len() == old(self).pieces().len(),
            forall|i: int| 0 <= i < old(self).pieces().len() ==> {
                let st = piece_start(old(self).pieces(), i);
                &&& (#[trigger] final(self).pieces()[i]).len() == old(self).pieces()[i].len()
                &&& forall|j: int| 0 <= j < old(self).pieces()[i].len() ==> final(self).pieces()[i][j]
                    == if st + j < content@.len() { content@[st + j] } else { old(self).pieces()[i][j] }
            },
    {
        let ghost old_pieces = self.pieces();
        let clen = content.len();
        let mut begin: usize = 0;
        let mut i: usize = 0;
        while i < self.buffers.len()
            invariant
                i <= self.buffers@.len(),
                self.buffers@.len() == old_pieces.len(),
                old_pieces == old(self).pieces(),
                content@.len() <= total_len(old_pieces),
                clen == content@.len(),
                begin as int == if piece_start(old_pieces, i as int) < content@.len() {
                    piece_start(old_pieces, i as int)
                } else {
                    content@.len() as int
                },
                forall|k: int| i <= k < old_pieces.len() ==> #[trigger] self.pieces()[k] == old_pieces[k],
                forall|k: int| 0 <= k < i ==> {
                    let st = piece_start(old_pieces, k);
                    &&& (#[trigger] self.pieces()[k]).len() == old_pieces[k].len()
                    &&& forall|j: int| 0 <= j < old_pieces[k].len() ==> self.pieces()[k][j]
                        == if st + j < content@.len() { content@[st + j] } else { old_pieces[k][j] }
                },
            decreases self.buffers@.len() - i,
        {
            proof {
                lemma_piece_start_step(old_pieces, i as int);
                self.lemma_piece_start_bounded_at(old_pieces, i as int);
            }
            let mut piece = self.buffers[i].clone();
            proof {
                assert(self.pieces()[i as int] == self.buffers@[i as int]@);
                assert(piece@ =~= self.buffers@[i as int]@);
            }
            let ghost before_set = self.pieces();
            let slice_len = piece.len();
            let rest_len = clen - begin;
            let this_len = if rest_len < slice_len { rest_len } else { slice_len };
            let mut j: usize = 0;
            while j < this_len
                invariant
                    j <= this_len,
                    this_len <= slice_len,
                    slice_len == old_pieces[i as int].len(),
                    begin + this_len <= clen,
                    clen == content@.len(),
                    piece@.len() == slice_len,
                    forall|t: int| 0 <= t < j ==> #[trigger] piece@[t] == content@[begin + t],
                    forall|t: int| j <= t < slice_len ==> #[trigger] piece@[t] == old_pieces[i as int][t],
                decreases this_len - j,
            {
                piece.set(j, content[begin + j]);
                j = j + 1;
            }
            self.buffers.set(i, piece);
            begin = begin + this_len;
            proof {
                assert(self.pieces() =~= before_set.update(i as int, piece@));
                let st = piece_start(old_pieces, i as int);
                assert forall|t: int| 0 <= t < old_pieces[i as int].len() implies self.pieces()[i as int][t]
                    == if st + t < content@.len() { content@[st + t] } else { old_pieces[i as int][t] } by {
                    if st < content@.len() {
                        assert(begin - this_len == st);
                    }
                }
            }
            i = i + 1;
        }
        proof {
            lemma_piece_start_all(old_pieces);
        }
    }

    /// The start of every piece lies within the whole.
    proof fn lemma_piece_start_bounded_at(&self, s: Seq<Seq<u8>>, i: int)
        requires
            0 <= i < s.len(),
        ensures
            piece_start(s, i) + s[i].len() <= total_len(s),
        decreases s.len() - i,
    {
        lemma_piece_start_step(s, i);
        if i + 1 < s.len() {
            self.lemma_piece_start_bounded_at(s, i + 1);
            lemma_flat_len(s.take(i + 2));
        } else {
            lemma_piece_start_all(s);
        }
    }

    /// An iterator over the byte positions of the buffer, in order.
    pub fn into_iter(self) -> (it: UserBufferIterator)
        ensures
            it.pieces() == self.pieces(),
            it.position() == (0usize, 0usize),
    {
        UserBufferIterator { buffers: self.buffers, buffer_idx: 0, data_offset: 0 }
    }
}

/// Walks the bytes of a user buffer: the piece and the offset in it of the
/// next byte.
pub struct UserBufferIterator {
    buffers: Vec<Vec<u8>>,
    buffer_idx: usize,
    data_offset: usize,
}

impl UserBufferIterator {
    /// The pieces walked.
    pub closed spec fn pieces(&self) -> Seq<Seq<u8>> {
        self.buffers@.map_values(|v: Vec<u8>| v@)
    }

    /// The piece and offset of the next byte.
    pub closed spec fn position(&self) -> (usize, usize) {
        (self.buffer_idx, self.data_offset)
    }

    /// Every piece holds a byte, and the position is inside the buffer or
    /// right after it.
    pub open spec fn wf(&self) -> bool {
        &&& forall|i: int| 0 <= i < self.pieces().len() ==> (#[trigger] self.pieces()[i]).len() > 0
        &&& (self.position().0 < self.pieces().len() ==> self.position().1 < self.pieces()[self.position().0 as int].len())
        &&& (self.position().0 >= self.pieces().len() ==> self.position().1 == 0)
    }

    /// The position of the next byte, then moves past it; `None` once every
    /// byte was walked.
    pub fn next(&mut self) -> (r: Option<(usize, usize)>)
        requires
            old(self).wf(),
        ensures
            final(self).wf(),
            final(self).pieces() == old(self).pieces(),
            old(self).position().0 >= old(self).pieces().len() ==> r is None && final(self).position() == old(self).position(),
            old(self).position().0 < old(self).pieces().len() ==> {
                let (b, d) = old(self).position();
                &&& r == Some((b, d))
                &&& if d + 1 == old(self).pieces()[b as int].len() {
                    final(self).position() == ((b + 1) as usize, 0usize)
                } else {
                    final(self).position() == (b, (d + 1) as usize)
                }
            },
    {
        if self.buffer_idx >= self.buffers.len() {
            None
        } else {
            let pos = (self.buffer_idx, self.data_offset);
            let cur_len = self.buffers[self.buffer_idx].len();
            assert(cur_len == self.pieces()[self.buffer_idx as int].len());
            if self.data_offset + 1 == cur_len {
                self.data_offset = 0;
                self.buffer_idx = self.buffer_idx + 1;
            } else {
                self.data_offset = self.data_offset + 1;
            }
            Some(pos)
        }
    }
}

} // verus!
