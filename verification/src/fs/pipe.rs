//! Pipes: a ring buffer of bytes shared by a read end and a write end.
use vstd::prelude::*;

verus! {

/// Bytes that a pipe holds at most.
pub const RING_BUFFER_SIZE: usize = 4096;

/// Whether the ring is full, empty, or neither.
#[derive(Copy, Clone, Debug, PartialEq, Eq, Structural)]
pub enum RingBufferStatus {
    Full,
    Empty,
    Normal,
}

/// A circular queue of bytes: `head` is the next byte to read, `tail` the
/// next slot to write.
pub struct PipeRingBuffer {
    arr: Vec<u8>,
    head: usize,
    tail: usize,
    status: RingBufferStatus,
}

impl PipeRingBuffer {
    /// The number of bytes held.
    pub closed spec fn count(&self) -> nat {
        match self.status {
            RingBufferStatus::Empty => 0,
            RingBufferStatus::Full => RING_BUFFER_SIZE as nat,
            RingBufferStatus::Normal => if self.tail > self.head {
                (self.tail - self.head) as nat
            } else {
                (self.tail + RING_BUFFER_SIZE - self.head) as nat
            },
        }
    }

    /// The bytes held, oldest first.
    pub closed spec fn view(&self) -> Seq<u8> {
        Seq::new(self.count(), |k: int| self.arr@[(self.head + k) % (RING_BUFFER_SIZE as int)])
    }

    /// The ring's invariant: a buffer of the full size, positions inside it,
    /// and a status that agrees with the positions.
    pub closed spec fn wf(&self) -> bool {
        &&& self.arr@.len() == RING_BUFFER_SIZE
        &&& self.head < RING_BUFFER_SIZE
        &&& self.tail < RING_BUFFER_SIZE
        &&& (self.status == RingBufferStatus::Normal) == (self.head != self.tail)
    }

    /// An empty ring.
    pub fn new() -> (r: Self)
        ensures
            r.wf(),
            r.view() == Seq::<u8>::empty(),
    {
        let mut arr: Vec<u8> = Vec::new();
        let mut i: usize = 0;
        while i < RING_BUFFER_SIZE
            invariant
                i <= RING_BUFFER_SIZE,
                arr@.len() == i,
            decreases RING_BUFFER_SIZE - i,
        {
            arr.push(0);
            i = i + 1;
        }
        let r = PipeRingBuffer { arr, head: 0, tail: 0, status: RingBufferStatus::Empty };
        assert(r.view() =~= Seq::<u8>::empty());
        r
    }

    /// Takes the oldest byte; the ring must hold one.
    pub fn read_byte(&mut self) -> (b: u8)
        requires
            old(self).wf(),
            old(self).view().len() > 0,
        ensures
            final(self).wf(),
            b == old(self).view()[0],
            final(self).view() == old(self).view().drop_first(),
    {
        let ghost old_view = self.view();
        self.status = RingBufferStatus::Normal;
        let byte = self.arr[self.head];
        self.head = (self.head + 1) % RING_BUFFER_SIZE;
        if self.head == self.tail {
            self.status = RingBufferStatus::Empty;
        }
        proof {
            assert(old(self).arr@[(old(self).head + 0) % (RING_BUFFER_SIZE as int)] == byte);
            assert(self.count() == old(self).count() - 1);
            assert forall|k: int| 0 <= k < self.count() implies #[trigger] self.view()[k] == old_view.drop_first()[k] by {
                assert((self.head + k) % (RING_BUFFER_SIZE as int) == (old(self).head + (k + 1)) % (RING_BUFFER_SIZE as int));
            }
            assert(self.view() =~= old_view.drop_first());
        }
        byte
    }

    /// Appends a byte; the ring must not be full.
    pub fn write_byte(&mut self, byte: u8)
        requires
            old(self).wf(),
            old(self).view().len() < RING_BUFFER_SIZE,
        ensures
            final(self).wf(),
            final(self).view() == old(self).view().push(byte),
    {
        let ghost old_view = self.view();
        self.status = RingBufferStatus::Normal;
        self.arr.set(self.tail, byte);
        self.tail = (self.tail + 1) % RING_BUFFER_SIZE;
        if self.tail == self.head {
            self.status = RingBufferStatus::Full;
        }
        proof {
            assert(self.count() == old(self).count() + 1);
            assert forall|k: int| 0 <= k < self.count() implies #[trigger] self.view()[k] == old_view.push(byte)[k] by {
                if k < old(self).count() {
                    assert((old(self).head + k) % (RING_BUFFER_SIZE as int) != old(self).tail as int);
                } else {
                    assert((old(self).head + k) % (RING_BUFFER_SIZE as int) == old(self).tail as int);
                }
            }
            assert(self.view() =~= old_view.push(byte));
        }
    }

    /// Whether the ring is full, empty, or neither.
    pub closed spec fn status(&self) -> RingBufferStatus {
        self.status
    }

    /// A well-formed ring holds at most its size; it is full exactly when
    /// it holds that many bytes and empty exactly when it holds none.
    pub proof fn lemma_status_agrees(&self)
        requires
            self.wf(),
        ensures
            self.view().len() <= RING_BUFFER_SIZE,
            (self.status() == RingBufferStatus::Full) == (self.view().len() == RING_BUFFER_SIZE),
            (self.status() == RingBufferStatus::Empty) == (self.view().len() == 0),
    {
    }

    /// The number of bytes that can be read.
    pub fn available_read(&self) -> (r: usize)
        requires
            self.wf(),
        ensures
            r == self.view().len(),
            r <= RING_BUFFER_SIZE,
    {
        match self.status {
            RingBufferStatus::Empty => 0,
            RingBufferStatus::Full | RingBufferStatus::Normal => {
                if self.tail > self.head {
                    self.tail - self.head
                } else {
                    self.tail + RING_BUFFER_SIZE - self.head
                }
            },
        }
    }

    /// The number of bytes that can be written.
    pub fn available_write(&self) -> (r: usize)
        requires
            self.wf(),
        ensures
            r == RING_BUFFER_SIZE - self.view().len(),
    {
        match self.status {
            RingBufferStatus::Full => 0,
            RingBufferStatus::Empty | RingBufferStatus::Normal => RING_BUFFER_SIZE - self.available_read(),
        }
    }
}

/// One operation on a ring: writing a byte, or reading the oldest one.
#[derive(Copy, Clone, Debug, PartialEq, Eq, Structural)]
pub enum PipeOp {
    Write(u8),
    Read,
}

/// What an empty ring holds after `ops`, oldest byte first.
pub open spec fn pipe_after(ops: Seq<PipeOp>) -> Seq<u8>
    decreases ops.len(),
{
    if ops.len() == 0 {
        Seq::empty()
    } else {
        let s = pipe_after(ops.drop_last());
        match ops.last() {
            PipeOp::Write(b) => s.push(b),
            PipeOp::Read => s.drop_first(),
        }
    }
}

/// Each operation of `ops` is one the ring allows at that point: a write
/// while it is not full, a read while it is not empty.
pub open spec fn pipe_ops_allowed(ops: Seq<PipeOp>) -> bool {
    forall|k: int|
        0 <= k < ops.len() ==> match #[trigger] ops[k] {
            PipeOp::Write(_) => pipe_after(ops.take(k)).len() < RING_BUFFER_SIZE,
            PipeOp::Read => pipe_after(ops.take(k)).len() > 0,
        }
}

/// The number of writes in `ops`.
pub open spec fn pipe_writes(ops: Seq<PipeOp>) -> int
    decreases ops.len(),
{
    if ops.len() == 0 {
        0
    } else {
        pipe_writes(ops.drop_last()) + if ops.last() is Write { 1int } else { 0int }
    }
}

/// The number of reads in `ops`.
pub open spec fn pipe_reads(ops: Seq<PipeOp>) -> int
    decreases ops.len(),
{
    if ops.len() == 0 {
        0
    } else {
        pipe_reads(ops.drop_last()) + if ops.last() is Read { 1int } else { 0int }
    }
}

/// Over any allowed run of operations from an empty ring, the ring holds
/// the number of bytes written less the number read, never more than its
/// size; so what can be read and what can be written always add up to the
/// size.
pub proof fn lemma_pipe_counts(ops: Seq<PipeOp>)
    requires
        pipe_ops_allowed(ops),
    ensures
        pipe_after(ops).len() == pipe_writes(ops) - pipe_reads(ops),
        pipe_after(ops).len() <= RING_BUFFER_SIZE,
    decreases ops.len(),
{
    if ops.len() > 0 {
        let prev = ops.drop_last();
        assert forall|k: int| 0 <= k < prev.len() implies match #[trigger] prev[k] {
            PipeOp::Write(_) => pipe_after(prev.take(k)).len() < RING_BUFFER_SIZE,
            PipeOp::Read => pipe_after(prev.take(k)).len() > 0,
        } by {
            assert(prev.take(k) =~= ops.take(k));
            assert(prev[k] == ops[k]);
        }
        lemma_pipe_counts(prev);
        let n = ops.len() - 1;
        assert(ops.take(n) =~= prev);
        assert(ops[n] == ops.last());
    }
}

/// How many bytes one read pass moves: what the ring holds, up to what the
/// buffer of `want` bytes, `have` of them filled, still takes.
pub open spec fn read_moved(ring: Seq<u8>, want: int, have: int) -> int {
    if ring.len() < want - have {
        ring.len() as int
    } else {
        want - have
    }
}

/// How many bytes one write pass moves: the rest of `src` after `done`
/// bytes, up to the room left in the ring.
pub open spec fn write_moved(ring: Seq<u8>, src: Seq<u8>, done: int) -> int {
    let room = RING_BUFFER_SIZE - ring.len();
    if room < src.len() - done {
        room
    } else {
        src.len() - done
    }
}

/// A pipe gives back what was written to it, in order: bytes that one
/// write pass puts into a ring holding `held` come out of the following
/// read passes after `held` and before anything written later, and a
/// write of at most the ring's size into an empty ring followed by a read
/// of as many bytes gives back exactly those bytes and leaves the ring
/// empty.
pub proof fn lemma_pipe_fifo(held: Seq<u8>, src: Seq<u8>, later: Seq<u8>)
    requires
        held.len() + src.len() <= RING_BUFFER_SIZE,
    ensures
        write_moved(held, src, 0) == src.len(),
        (held + src.subrange(0, src.len() as int) + later).skip(held.len() as int).take(src.len() as int) == src,
        write_moved(Seq::empty(), src, 0) == src.len(),
        read_moved(Seq::<u8>::empty() + src.subrange(0, src.len() as int), src.len() as int, 0) == src.len(),
        (Seq::<u8>::empty() + src.subrange(0, src.len() as int)).take(src.len() as int) == src,
        (Seq::<u8>::empty() + src.subrange(0, src.len() as int)).skip(src.len() as int) == Seq::<u8>::empty(),
{
    assert(src.subrange(0, src.len() as int) =~= src);
    assert((held + src + later).skip(held.len() as int).take(src.len() as int) =~= src);
    assert((Seq::<u8>::empty() + src).take(src.len() as int) =~= src);
    assert((Seq::<u8>::empty() + src).skip(src.len() as int) =~= Seq::<u8>::empty());
}

/// What one pass of a blocking pipe operation decides.
#[derive(Copy, Clone, Debug, PartialEq, Eq, Structural)]
pub enum PipeStep {
    /// The operation is over; it moved this many bytes in all.
    Done(usize),
    /// Nothing can move now: the task yields and the pass is retried.
    Wait,
}

/// What one pass of reading does, the ring going from `ring0` to `ring1`
/// and the bytes read so far from `dst0` to `dst1`, for a buffer of `want`
/// bytes, `closed` telling whether every write end is closed: an empty ring
/// moves nothing and ends the read only when `closed`; else the ring's
/// first bytes move, up to what the buffer still takes, and the read is
/// over once the buffer is full.
pub open spec fn read_outcome(
    ring0: Seq<u8>,
    ring1: Seq<u8>,
    dst0: Seq<u8>,
    dst1: Seq<u8>,
    want: usize,
    closed: bool,
    r: PipeStep,
) -> bool {
    if ring0.len() == 0 {
        ring1 == ring0 && dst1 == dst0 && r == (if closed { PipeStep::Done(dst0.len() as usize) } else { PipeStep::Wait })
    } else {
        let k = read_moved(ring0, want as int, dst0.len() as int);
        &&& dst1 == dst0 + ring0.take(k)
        &&& ring1 == ring0.skip(k)
        &&& r == (if dst1.len() == want { PipeStep::Done(want) } else { PipeStep::Wait })
    }
}

/// What one pass of writing `src`, `done` bytes of it already written,
/// does, the ring going from `ring0` to `ring1`: the next bytes of `src`
/// that the ring has room for are appended, `r.1` counts the bytes written
/// in all, and the write is over once every byte is in.
pub open spec fn write_outcome(ring0: Seq<u8>, ring1: Seq<u8>, src: Seq<u8>, done: int, r: (PipeStep, usize)) -> bool {
    let room = RING_BUFFER_SIZE - ring0.len();
    let k = write_moved(ring0, src, done);
    &&& r.1 == done + k
    &&& ring1 == ring0 + src.subrange(done, done + k)
    &&& r.0 == (if room > 0 && r.1 == src.len() { PipeStep::Done(src.len() as usize) } else { PipeStep::Wait })
}

/// One pass of reading from a pipe into a user buffer of `want` bytes, of
/// which `dst` already holds some: moves what the ring holds, up to what the
/// buffer still takes. An empty ring ends the read only once every write end
/// is closed; otherwise the reader waits.
pub fn read_step(ring: &mut PipeRingBuffer, dst: &mut Vec<u8>, want: usize, write_ends_closed: bool) -> (r: PipeStep)
    requires
        old(ring).wf(),
        old(dst)@.len() <= want,
    ensures
        final(ring).wf(),
        read_outcome(old(ring).view(), final(ring).view(), old(dst)@, final(dst)@, want, write_ends_closed, r),
{
    let n = ring.available_read();
    if n == 0 {
        if write_ends_closed {
            return PipeStep::Done(dst.len());
        }
        return PipeStep::Wait;
    }
    let ghost start = ring.view();
    let ghost dst0 = dst@;
    let mut moved: usize = 0;
    while moved < n
        invariant
            ring.wf(),
            n == start.len(),
            n > 0,
            start == old(ring).view(),
            dst0 == old(dst)@,
            moved <= n,
            dst0.len() <= want,
            moved <= want - dst0.len(),
            dst@ == dst0 + start.take(moved as int),
            ring.view() == start.skip(moved as int),
        decreases n - moved,
    {
        if dst.len() == want {
            return PipeStep::Done(want);
        }
        let b = ring.read_byte();
        dst.push(b);
        proof {
            assert(start.take(moved as int + 1) =~= start.take(moved as int).push(start[moved as int]));
            assert(start.skip(moved as int).drop_first() =~= start.skip(moved as int + 1));
            assert((dst0 + start.take(moved as int)).push(b) =~= dst0 + start.take(moved as int + 1));
        }
        moved = moved + 1;
    }
    if dst.len() == want {
        PipeStep::Done(want)
    } else {
        PipeStep::Wait
    }
}

/// One pass of writing `src` into a pipe, `done` bytes of it already written:
/// moves as many of the rest as the ring has room for. A full ring makes the
/// writer wait; the write is over once every byte is in.
pub fn write_step(ring: &mut PipeRingBuffer, src: &Vec<u8>, done: usize) -> (r: (PipeStep, usize))
    requires
        old(ring).wf(),
        done <= src@.len(),
    ensures
        final(ring).wf(),
        write_outcome(old(ring).view(), final(ring).view(), src@, done as int, r),
{
    let n = ring.available_write();
    let ghost start = ring.view();
    assert(src@.subrange(done as int, done as int) =~= Seq::<u8>::empty());
    assert(start + Seq::<u8>::empty() =~= start);
    if n == 0 {
        return (PipeStep::Wait, done);
    }
    let mut written = done;
    let mut i: usize = 0;
    while i < n
        invariant
            ring.wf(),
            n == RING_BUFFER_SIZE - start.len(),
            n > 0,
            start == old(ring).view(),
            i <= n,
            written == done + i,
            written <= src@.len(),
            ring.view() == start + src@.subrange(done as int, written as int),
        decreases n - i,
    {
        if written == src.len() {
            return (PipeStep::Done(src.len()), written);
        }
        ring.write_byte(src[written]);
        proof {
            assert(src@.subrange(done as int, written as int + 1) =~= src@.subrange(done as int, written as int).push(src@[written as int]));
            assert((start + src@.subrange(done as int, written as int)).push(src@[written as int]) =~= start + src@.subrange(done as int, written as int + 1));
        }
        written = written + 1;
        i = i + 1;
    }
    if written == src.len() {
        (PipeStep::Done(src.len()), written)
    } else {
        (PipeStep::Wait, written)
    }
}

} // verus!
