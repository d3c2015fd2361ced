//! The file descriptor table of a process.
use vstd::prelude::*;

verus! {

/// Open files by descriptor; a free descriptor holds `None`.
pub struct FdTable<F>(Vec<Option<F>>);

impl<F> FdTable<F> {
    /// The slots of the table.
    pub closed spec fn view(&self) -> Seq<Option<F>> {
        self.0@
    }

    /// The table with descriptors 0, 1 and 2 bound to standard input, output
    /// and error.
    pub fn with_stdio(stdin: F, stdout: F, stderr: F) -> (r: Self)
        ensures
            r.view() == seq![Some(stdin), Some(stdout), Some(stderr)],
    {
        let mut v: Vec<Option<F>> = Vec::new();
        v.push(Some(stdin));
        v.push(Some(stdout));
        v.push(Some(stderr));
        let r = FdTable(v);
        assert(r.view() =~= seq![Some(stdin), Some(stdout), Some(stderr)]);
        r
    }

    /// The number of slots.
    pub fn len(&self) -> (r: usize)
        ensures
            r == self.view().len(),
    {
        self.0.len()
    }

    /// Closes every descriptor and drops every slot.
    pub fn clear(&mut self)
        ensures
            final(self).view() == Seq::<Option<F>>::empty(),
    {
        self.0.clear();
    }

    /// The lowest free descriptor; when every slot is taken a new free slot
    /// is added at the end and its descriptor returned.
    pub fn alloc_fd(&mut self) -> (fd: usize)
        requires
            old(self).view().len() < usize::MAX,
        ensures
            fd <= old(self).view().len(),
            forall|i: int| 0 <= i < fd ==> #[trigger] old(self).view()[i] is Some,
            fd < old(self).view().len() ==> old(self).view()[fd as int] is None && final(self).view() == old(self).view(),
            fd == old(self).view().len() ==> final(self).view() == old(self).view().push(None),
            final(self).view()[fd as int] is None,
    {
        let mut fd: usize = 0;
        while fd < self.0.len()
            invariant
                fd <= self.0@.len(),
                self.0@ == old(self).view(),
                forall|i: int| 0 <= i < fd ==> #[trigger] self.0@[i] is Some,
            decreases self.0@.len() - fd,
        {
            if self.0[fd].is_none() {
                return fd;
            }
            fd = fd + 1;
        }
        self.0.push(None);
        self.0.len() - 1
    }

    /// Whether descriptor `fd` is open.
    pub fn is_open(&self, fd: usize) -> (r: bool)
        ensures
            r == (fd < self.view().len() && self.view()[fd as int] is Some),
    {
        fd < self.0.len() && self.0[fd].is_some()
    }

    /// The file behind descriptor `fd`, if it is open.
    pub fn get(&self, fd: usize) -> (r: Option<&F>)
        ensures
            fd < self.view().len() && self.view()[fd as int] is Some ==> r == Some(&self.view()[fd as int]->0),
            !(fd < self.view().len() && self.view()[fd as int] is Some) ==> r is None,
    {
        if fd < self.0.len() {
            match &self.0[fd] {
                Some(f) => Some(f),
                None => None,
            }
        } else {
            None
        }
    }

    /// Stores `file` in slot `fd`, which must exist.
    pub fn set(&mut self, fd: usize, file: Option<F>)
        requires
            fd < old(self).view().len(),
        ensures
            final(self).view() == old(self).view().update(fd as int, file),
    {
        self.0.set(fd, file);
    }

    /// Closes descriptor `fd` and hands back what it held.
    pub fn take(&mut self, fd: usize) -> (r: Option<F>)
        requires
            fd < old(self).view().len(),
        ensures
            r == old(self).view()[fd as int],
            final(self).view() == old(self).view().update(fd as int, None),
    {
        let mut v: Vec<Option<F>> = Vec::new();
        std::mem::swap(&mut v, &mut self.0);
        let r = v.remove(fd);
        v.insert(fd, None);
        self.0 = v;
        assert(self.0@ =~= old(self).view().update(fd as int, None));
        r
    }
}

impl<F: Copy> FdTable<F> {
    /// A copy of the table: the same files behind the same descriptors (what
    /// a forked child starts with).
    pub fn duplicate(&self) -> (r: Self)
        ensures
            r.view() == self.view(),
    {
        let mut v: Vec<Option<F>> = Vec::new();
        let mut i: usize = 0;
        while i < self.0.len()
            invariant
                i <= self.0@.len(),
                v@ == self.0@.take(i as int),
            decreases self.0@.len() - i,
        {
            v.push(self.0[i]);
            proof {
                assert(self.0@.take(i as int + 1) =~= self.0@.take(i as int).push(self.0@[i as int]));
            }
            i = i + 1;
        }
        assert(v@ =~= self.0@);
        FdTable(v)
    }
}

} // verus!
