//! The open pipes, and how many descriptors hold each of their ends.
use super::file::FileHandle;
use super::pipe::{read_outcome, read_step, write_moved, write_outcome, write_step, PipeRingBuffer, PipeStep, RING_BUFFER_SIZE};
use vstd::hash_map::HashMapWithView;
use vstd::prelude::*;

verus! {

/// A pipe: its ring, and how many descriptors hold each of its ends.
pub struct Pipe {
    pub ring: PipeRingBuffer,
    pub readers: u64,
    pub writers: u64,
}

/// The pipe that the handle `h` is an end of, by the identifier of its read
/// end: identifiers up to 2 are the console's, a read end has an even
/// identifier and its write end the next one.
pub open spec fn pipe_of(h: FileHandle) -> Option<u64> {
    if h.id > 2 {
        Some((h.id - h.id % 2) as u64)
    } else {
        None
    }
}

/// The pipe that the handle `h` is an end of, if any.
pub fn pipe_id(h: FileHandle) -> (r: Option<u64>)
    ensures
        r == pipe_of(h),
{
    if h.id > 2 {
        Some(h.id - h.id % 2)
    } else {
        None
    }
}

/// The pipe `p` after one more descriptor holds the end `readable` says.
pub open spec fn with_end(p: Pipe, readable: bool) -> Pipe {
    if readable {
        Pipe { readers: (p.readers + 1) as u64, ..p }
    } else {
        Pipe { writers: (p.writers + 1) as u64, ..p }
    }
}

/// The pipe `p` after one descriptor less holds the end `readable` says.
pub open spec fn without_end(p: Pipe, readable: bool) -> Pipe {
    if readable {
        Pipe { readers: (p.readers - 1) as u64, ..p }
    } else {
        Pipe { writers: (p.writers - 1) as u64, ..p }
    }
}

/// The open pipes, by the identifier of their read end.
pub struct PipeTable {
    pipes: HashMapWithView<u64, Pipe>,
    next_id: u64,
}

impl PipeTable {
    /// The open pipes by the identifier of their read end.
    pub closed spec fn pipes(&self) -> Map<u64, Pipe> {
        self.pipes@
    }

    /// The identifier the next pipe's read end gets.
    pub closed spec fn next_id(&self) -> u64 {
        self.next_id
    }

    /// The table is well formed: identifiers are even, above the console's
    /// and below the next one, each ring is well formed, and each open pipe
    /// has an end that some descriptor holds.
    pub open spec fn wf(&self) -> bool {
        &&& self.next_id() % 2 == 0
        &&& self.next_id() > 2
        &&& forall|id: u64| #[trigger] self.pipes().contains_key(id) ==> id % 2 == 0 && 2 < id < self.next_id()
            && self.pipes()[id].ring.wf() && self.pipes()[id].readers + self.pipes()[id].writers > 0
    }

    /// No pipe yet; the first gets the identifiers 4 and 5.
    pub fn new() -> (r: Self)
        ensures
            r.wf(),
            r.pipes() == Map::<u64, Pipe>::empty(),
            r.next_id() == 4,
    {
        broadcast use vstd::std_specs::hash::group_hash_axioms;
        PipeTable { pipes: HashMapWithView::new(), next_id: 4 }
    }

    /// Whether a new pipe can still get identifiers.
    pub fn has_room(&self) -> (r: bool)
        ensures
            r == (self.next_id() < u64::MAX - 2),
    {
        self.next_id < u64::MAX - 2
    }

    /// How many descriptors hold the read end and the write end of pipe
    /// `id`, if it is open.
    pub fn ends(&self, id: u64) -> (r: Option<(u64, u64)>)
        ensures
            r == (if self.pipes().contains_key(id) {
                Some((self.pipes()[id].readers, self.pipes()[id].writers))
            } else {
                None
            }),
    {
        match self.pipes.get(&id) {
            Some(p) => Some((p.readers, p.writers)),
            None => None,
        }
    }

    /// A new pipe with an empty ring, each end held by one descriptor:
    /// returns its read end and its write end.
    pub fn make_pipe(&mut self) -> (r: (FileHandle, FileHandle))
        requires
            old(self).wf(),
            old(self).next_id() < u64::MAX - 2,
        ensures
            final(self).wf(),
            r.0 == (FileHandle { id: old(self).next_id(), readable: true, writable: false }),
            r.1 == (FileHandle { id: (old(self).next_id() + 1) as u64, readable: false, writable: true }),
            final(self).next_id() == old(self).next_id() + 2,
            !old(self).pipes().contains_key(old(self).next_id()),
            final(self).pipes().dom() == old(self).pipes().dom().insert(old(self).next_id()),
            forall|id: u64| #[trigger] old(self).pipes().contains_key(id) ==> final(self).pipes()[id] == old(self).pipes()[id],
            final(self).pipes()[old(self).next_id()].ring.view() == Seq::<u8>::empty(),
            final(self).pipes()[old(self).next_id()].readers == 1,
            final(self).pipes()[old(self).next_id()].writers == 1,
    {
        let id = self.next_id;
        let ring = PipeRingBuffer::new();
        self.pipes.insert(id, Pipe { ring, readers: 1, writers: 1 });
        self.next_id = id + 2;
        proof {
            assert(self.pipes().dom() =~= old(self).pipes().dom().insert(id));
        }
        (FileHandle { id, readable: true, writable: false }, FileHandle { id: id + 1, readable: false, writable: true })
    }

    /// One more descriptor holds the end `h`: its pipe counts it. A handle
    /// of no open pipe changes nothing.
    pub fn add_end(&mut self, h: FileHandle)
        requires
            old(self).wf(),
            match pipe_of(h) {
                Some(id) => old(self).pipes().contains_key(id) ==> old(self).pipes()[id].readers < u64::MAX
                    && old(self).pipes()[id].writers < u64::MAX,
                None => true,
            },
        ensures
            final(self).wf(),
            final(self).next_id() == old(self).next_id(),
            final(self).pipes() == (match pipe_of(h) {
                Some(id) => if old(self).pipes().contains_key(id) {
                    old(self).pipes().insert(id, with_end(old(self).pipes()[id], h.readable))
                } else {
                    old(self).pipes()
                },
                None => old(self).pipes(),
            }),
    {
        if let Some(id) = pipe_id(h) {
            if let Some(mut p) = self.pipes.remove(&id) {
                if h.readable {
                    p.readers = p.readers + 1;
                } else {
                    p.writers = p.writers + 1;
                }
                self.pipes.insert(id, p);
                proof {
                    assert(self.pipes() =~= old(self).pipes().insert(id, with_end(old(self).pipes()[id], h.readable)));
                }
            }
        }
    }

    /// One descriptor less holds the end `h`: its pipe counts it no more,
    /// and a pipe whose ends no descriptor holds is gone. A handle of no
    /// open pipe changes nothing.
    pub fn drop_end(&mut self, h: FileHandle)
        requires
            old(self).wf(),
            match pipe_of(h) {
                Some(id) => old(self).pipes().contains_key(id) ==> (if h.readable {
                    old(self).pipes()[id].readers > 0
                } else {
                    old(self).pipes()[id].writers > 0
                }),
                None => true,
            },
        ensures
            final(self).wf(),
            final(self).next_id() == old(self).next_id(),
            final(self).pipes() == (match pipe_of(h) {
                Some(id) => if old(self).pipes().contains_key(id) {
                    let p = without_end(old(self).pipes()[id], h.readable);
                    if p.readers == 0 && p.writers == 0 {
                        old(self).pipes().remove(id)
                    } else {
                        old(self).pipes().insert(id, p)
                    }
                } else {
                    old(self).pipes()
                },
                None => old(self).pipes(),
            }),
    {
        if let Some(id) = pipe_id(h) {
            if let Some(mut p) = self.pipes.remove(&id) {
                if h.readable {
                    p.readers = p.readers - 1;
                } else {
                    p.writers = p.writers - 1;
                }
                if p.readers == 0 && p.writers == 0 {
                    proof {
                        assert(self.pipes() =~= old(self).pipes().remove(id));
                    }
                } else {
                    self.pipes.insert(id, p);
                    proof {
                        assert(self.pipes() =~= old(self).pipes().insert(id, without_end(old(self).pipes()[id], h.readable)));
                    }
                }
            }
        }
    }

    /// One pass of reading pipe `id` into a buffer of `want` bytes, of which
    /// `dst` already holds some (see `read_outcome`): the read ends on an
    /// empty ring once no descriptor holds the write end. `None`, with
    /// nothing changed, when no such pipe is open.
    pub fn read(&mut self, id: u64, dst: &mut Vec<u8>, want: usize) -> (r: Option<PipeStep>)
        requires
            old(self).wf(),
            old(dst)@.len() <= want,
        ensures
            final(self).wf(),
            final(self).next_id() == old(self).next_id(),
            r is Some <==> old(self).pipes().contains_key(id),
            r is None ==> final(self).pipes() == old(self).pipes() && final(dst)@ == old(dst)@,
            r is Some ==> {
                let p0 = old(self).pipes()[id];
                let p1 = final(self).pipes()[id];
                &&& final(self).pipes() == old(self).pipes().insert(id, p1)
                &&& p1.readers == p0.readers && p1.writers == p0.writers
                &&& read_outcome(p0.ring.view(), p1.ring.view(), old(dst)@, final(dst)@, want, p0.writers == 0, r->0)
            },
    {
        match self.pipes.remove(&id) {
            None => None,
            Some(mut p) => {
                assert(old(self).pipes().contains_key(id));
                let closed = p.writers == 0;
                let step = read_step(&mut p.ring, dst, want, closed);
                self.pipes.insert(id, p);
                proof {
                    assert(self.pipes() =~= old(self).pipes().insert(id, p));
                }
                Some(step)
            },
        }
    }

    /// One pass of writing `src` into pipe `id`, `done` bytes of it already
    /// written: the next bytes that the ring has room for are appended (see
    /// `write_outcome`); the write is over once every byte is in, or at once
    /// when no descriptor holds the read end. Returns the step and the bytes
    /// written in all; `None`, with nothing changed, when no such pipe is
    /// open.
    pub fn write(&mut self, id: u64, src: &Vec<u8>, done: usize) -> (r: Option<(PipeStep, usize)>)
        requires
            old(self).wf(),
            done <= src@.len(),
        ensures
            final(self).wf(),
            final(self).next_id() == old(self).next_id(),
            r is Some <==> old(self).pipes().contains_key(id),
            r is None ==> final(self).pipes() == old(self).pipes(),
            r is Some ==> {
                let p0 = old(self).pipes()[id];
                let p1 = final(self).pipes()[id];
                let ring0 = p0.ring.view();
                let k = write_moved(ring0, src@, done as int);
                let n = done + k;
                &&& final(self).pipes() == old(self).pipes().insert(id, p1)
                &&& p1.readers == p0.readers && p1.writers == p0.writers
                &&& p1.ring.view() == ring0 + src@.subrange(done as int, n)
                &&& r matches Some((step, m)) && m == n && step == (if (RING_BUFFER_SIZE - ring0.len() > 0 && n
                    == src@.len()) || p0.readers == 0 {
                    PipeStep::Done(n as usize)
                } else {
                    PipeStep::Wait
                })
            },
    {
        let removed = self.pipes.remove(&id);
        match removed {
            None => {
                proof {
                    assert(self.pipes() =~= old(self).pipes());
                }
                None
            },
            Some(mut p) => {
                assert(old(self).pipes().contains_key(id));
                let ghost ring0 = p.ring.view();
                let (step, n) = write_step(&mut p.ring, src, done);
                assert(write_outcome(ring0, p.ring.view(), src@, done as int, (step, n)));
                let readers = p.readers;
                self.pipes.insert(id, p);
                proof {
                    assert(self.pipes() =~= old(self).pipes().insert(id, p));
                }
                let res = if step == PipeStep::Wait && readers == 0 {
                    (PipeStep::Done(n), n)
                } else {
                    (step, n)
                };
                Some(res)
            },
        }
    }
}

} // verus!
