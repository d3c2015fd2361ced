//! The processes of the kernel by identifier: the parent/child tree, the
//! life of a process (running, zombie, reaped) and the threads it holds.
use super::fdtable::FdTable;
use crate::fs::file::FileHandle;
use super::pid::{lemma_allocate_fresh, RecycleAllocator, RecycleModel};
use super::signal::{add_signal, kill_signal, sig_bit, SignalFlags, SignalModel, SignalState};
use crate::syscall::syserr;
use crate::syscall::syserr::{EAGAIN, ECHILD, EINVAL};
use vstd::hash_map::HashMapWithView;
use vstd::prelude::*;

verus! {

/// What the kernel keeps of one process.
pub struct Process {
    /// The process that created it (or adopted it), if any.
    pub parent: Option<usize>,
    /// Its children, oldest first.
    pub children: Vec<usize>,
    /// Its main thread has exited and it waits to be reaped.
    pub zombie: bool,
    /// The exit code of its main thread.
    pub exit_code: i32,
    /// Its threads by identifier: `None` for a free slot, `Some(None)` for
    /// a live thread, `Some(Some(code))` for a thread that exited.
    pub threads: Vec<Option<Option<i32>>>,
    /// The thread identifiers in use.
    pub tids: RecycleAllocator,
    /// Its open files, as handles.
    pub fds: FdTable<FileHandle>,
    /// Its signal state.
    pub signals: SignalState,
    /// The name of the program it runs.
    pub cmd: Vec<u8>,
    /// The path of its working directory.
    pub cwd: Vec<u8>,
}

/// The process tree is consistent: a parent lists each of its children
/// once, a listed child names its parent, no process is its own parent,
/// and every process named is in the table.
pub open spec fn tree_ok(m: Map<usize, Process>) -> bool {
    &&& forall|p: usize| #[trigger] m.contains_key(p) ==> m[p].children@.no_duplicates() && m[p].parent != Some(p)
    &&& forall|p: usize, i: int|
        m.contains_key(p) && 0 <= i < m[p].children@.len() ==> m.contains_key(#[trigger] m[p].children@[i])
            && m[m[p].children@[i]].parent == Some(p)
    &&& forall|p: usize|
        #[trigger] m.contains_key(p) && m[p].parent is Some ==> m.contains_key(m[p].parent->0) && m[m[p].parent->0].children@.contains(p)
}

/// The processes by identifier, with the allocator of identifiers.
pub struct ProcessTable {
    procs: HashMapWithView<usize, Process>,
    pids: RecycleAllocator,
}

impl ProcessTable {
    /// The processes by identifier.
    pub closed spec fn procs(&self) -> Map<usize, Process> {
        self.procs@
    }

    /// The identifier allocator.
    pub closed spec fn pids(&self) -> RecycleModel {
        self.pids@
    }

    /// The table is well formed: its tree is consistent, the identifiers of
    /// its processes are exactly those in use, and each process's thread
    /// allocator is consistent.
    pub open spec fn wf(&self) -> bool {
        &&& tree_ok(self.procs())
        &&& self.pids().wf()
        &&& forall|p: usize| #[trigger] self.procs().contains_key(p) <==> self.pids().is_live(p)
        &&& forall|p: usize| #[trigger] self.procs().contains_key(p) ==> self.procs()[p].tids@.wf()
            && self.procs()[p].signals.model().wf()
        &&& forall|p: usize| #[trigger] self.procs().contains_key(p) && self.procs()[p].zombie ==> self.procs()[p].children@.len()
            == 0
        &&& forall|p: usize| #[trigger] self.procs().contains_key(p) && !self.procs()[p].zombie ==> slots_ok(self.procs()[p])
    }

    /// An empty table.
    pub fn new() -> (r: Self)
        ensures
            r.wf(),
            r.procs() == Map::<usize, Process>::empty(),
            r.pids() == (RecycleModel { current: 0, recycled: Seq::empty() }),
    {
        broadcast use vstd::std_specs::hash::group_hash_axioms;
        ProcessTable { procs: HashMapWithView::new(), pids: RecycleAllocator::new() }
    }

    /// Adds the first process: no parent, no child, running, one live
    /// thread (thread 0), with the open files `fds`, no signal, running the
    /// program `cmd` in the root directory.
    pub fn add_first(&mut self, fds: FdTable<FileHandle>, cmd: Vec<u8>) -> (pid: usize)
        requires
            old(self).wf(),
            old(self).pids().can_allocate(),
        ensures
            final(self).wf(),
            !old(self).procs().contains_key(pid),
            final(self).procs().dom() == old(self).procs().dom().insert(pid),
            forall|q: usize| q != pid && #[trigger] old(self).procs().contains_key(q) ==> final(self).procs()[q]
                == old(self).procs()[q],
            ({
                let p = final(self).procs()[pid];
                &&& p.parent is None
                &&& p.children@ == Seq::<usize>::empty()
                &&& !p.zombie
                &&& p.exit_code == 0
                &&& p.threads@ == seq![Some(None::<i32>)]
                &&& p.fds == fds
                &&& p.signals.model().pending == 0
                &&& p.signals.model().mask == 0
                &&& p.cmd@ == cmd@
                &&& p.cwd@ == seq![47u8]
            }),
    {
        proof {
            lemma_allocate_fresh(self.pids());
        }
        let pid = self.pids.allocate();
        let mut tids = RecycleAllocator::new();
        let main_tid = tids.allocate();
        let mut threads: Vec<Option<Option<i32>>> = Vec::new();
        threads.push(Some(None));
        let p = Process {
            parent: None,
            children: Vec::new(),
            zombie: false,
            exit_code: 0,
            threads,
            tids,
            fds,
            signals: SignalState::new(),
            cmd,
            cwd: vec![47u8],
        };
        self.procs.insert(pid, p);
        proof {
            let m0 = old(self).procs();
            let m = self.procs();
            assert(m.dom() =~= m0.dom().insert(pid));
            assert(p.children@ =~= Seq::<usize>::empty());
            assert(p.threads@ =~= seq![Some(None::<i32>)]);
            assert forall|q: usize| #[trigger] m.contains_key(q) implies m[q].children@.no_duplicates() by {
                if q != pid {
                    assert(m[q] == m0[q]);
                }
            }
            assert forall|q: usize, i: int|
                m.contains_key(q) && 0 <= i < m[q].children@.len() implies m.contains_key(#[trigger] m[q].children@[i])
                && m[m[q].children@[i]].parent == Some(q) by {
                assert(q != pid);
                assert(m[q] == m0[q]);
                let c = m0[q].children@[i];
                assert(m0.contains_key(c));
                assert(c != pid);
            }
            assert forall|q: usize| #[trigger] m.contains_key(q) && m[q].parent is Some implies m.contains_key(m[q].parent->0)
                && m[m[q].parent->0].children@.contains(q) by {
                assert(q != pid);
                assert(m[q] == m0[q]);
                let par = m0[q].parent->0;
                assert(m0.contains_key(par));
                assert(par != pid);
            }
        }
        pid
    }

    /// Makes a child of `parent` (which must hold one thread): a fresh
    /// identifier, the parent's open files, signal mask and actions, program
    /// name and working directory, one live thread, no child; the parent
    /// lists it last among its children.
    pub fn fork(&mut self, parent: usize) -> (child: usize)
        requires
            old(self).wf(),
            old(self).procs().contains_key(parent),
            old(self).procs()[parent].threads@.len() == 1,
            !old(self).procs()[parent].zombie,
            old(self).pids().can_allocate(),
        ensures
            final(self).wf(),
            (final(self).pids(), child) == old(self).pids().allocate(),
            !old(self).procs().contains_key(child),
            final(self).procs().dom() == old(self).procs().dom().insert(child),
            forall|q: usize| q != child && q != parent && #[trigger] old(self).procs().contains_key(q) ==> final(self).procs()[q]
                == old(self).procs()[q],
            final(self).procs()[parent] == (Process {
                children: final(self).procs()[parent].children,
                ..old(self).procs()[parent]
            }),
            final(self).procs()[parent].children@ == old(self).procs()[parent].children@.push(child),
            ({
                let c = final(self).procs()[child];
                let par = old(self).procs()[parent];
                &&& c.parent == Some(parent)
                &&& c.children@ == Seq::<usize>::empty()
                &&& !c.zombie
                &&& c.exit_code == 0
                &&& c.threads@ == seq![Some(None::<i32>)]
                &&& c.fds.view() == par.fds.view()
                &&& c.signals.model().pending == 0
                &&& c.signals.model().mask == par.signals.model().mask
                &&& c.signals.model().actions == par.signals.model().actions
                &&& c.cmd@ == par.cmd@
                &&& c.cwd@ == par.cwd@
            }),
    {
        proof {
            lemma_allocate_fresh(self.pids());
        }
        let child = self.pids.allocate();
        let mut par = self.procs.remove(&parent).unwrap();
        let mut tids = RecycleAllocator::new();
        let main_tid = tids.allocate();
        let mut threads: Vec<Option<Option<i32>>> = Vec::new();
        threads.push(Some(None));
        let c = Process {
            parent: Some(parent),
            children: Vec::new(),
            zombie: false,
            exit_code: 0,
            threads,
            tids,
            fds: par.fds.duplicate(),
            signals: SignalState::fork_from(&par.signals),
            cmd: copy_bytes(&par.cmd),
            cwd: copy_bytes(&par.cwd),
        };
        let ghost par0 = par;
        par.children.push(child);
        self.procs.insert(parent, par);
        self.procs.insert(child, c);
        proof {
            let m0 = old(self).procs();
            let m = self.procs();
            assert(m.dom() =~= m0.dom().insert(child));
            assert(c.children@ =~= Seq::<usize>::empty());
            assert(c.threads@ =~= seq![Some(None::<i32>)]);
            assert(m[parent] == par);
            assert(par == (Process { children: par.children, ..par0 }));
            assert forall|q: usize| #[trigger] m.contains_key(q) implies m[q].children@.no_duplicates() by {
                if q != child && q != parent {
                    assert(m[q] == m0[q]);
                }
                if q == parent {
                    assert(!m0[parent].children@.contains(child)) by {
                        if m0[parent].children@.contains(child) {
                            let i = choose|i: int| 0 <= i < m0[parent].children@.len() && m0[parent].children@[i] == child;
                            assert(m0.contains_key(m0[parent].children@[i]));
                        }
                    }
                }
            }
            assert forall|q: usize, i: int|
                m.contains_key(q) && 0 <= i < m[q].children@.len() implies m.contains_key(#[trigger] m[q].children@[i])
                && m[m[q].children@[i]].parent == Some(q) by {
                assert(q != child);
                if q == parent {
                    if i < m0[parent].children@.len() {
                        assert(m[q].children@[i] == m0[q].children@[i]);
                        let cc = m0[q].children@[i];
                        assert(m0.contains_key(cc));
                        assert(cc != child);
                        if cc != parent {
                            assert(m[cc] == m0[cc]);
                        }
                    }
                } else {
                    assert(m[q] == m0[q]);
                    let cc = m0[q].children@[i];
                    assert(m0.contains_key(cc));
                    assert(cc != child);
                    if cc == parent {
                        assert(m[parent].parent == m0[parent].parent);
                    } else {
                        assert(m[cc] == m0[cc]);
                    }
                }
            }
            assert forall|q: usize| #[trigger] m.contains_key(q) && m[q].parent is Some implies m.contains_key(m[q].parent->0)
                && m[m[q].parent->0].children@.contains(q) by {
                if q == child {
                    assert(m[parent].children@[m[parent].children@.len() - 1] == child);
                } else {
                    assert(q == parent || m[q] == m0[q]);
                    let pp = m0[q].parent->0;
                    assert(m0.contains_key(pp));
                    assert(pp != child);
                    let k = choose|k: int| 0 <= k < m0[pp].children@.len() && m0[pp].children@[k] == q;
                    if pp == parent {
                        assert(m[pp].children@[k] == q);
                    } else {
                        assert(m[pp] == m0[pp]);
                    }
                }
            }
            assert forall|q: usize| #[trigger] m.contains_key(q) implies m[q].tids@.wf() && m[q].signals.model().wf()
                && (m[q].zombie ==> m[q].children@.len() == 0) by {
                if q != child && q != parent {
                    assert(m[q] == m0[q]);
                }
            }
        }
        child
    }

    /// Process `pid` now runs the program `cmd`; nothing else changes.
    pub fn set_cmd(&mut self, pid: usize, cmd: Vec<u8>)
        requires
            old(self).wf(),
            old(self).procs().contains_key(pid),
        ensures
            final(self).wf(),
            final(self).pids() == old(self).pids(),
            final(self).procs() == old(self).procs().insert(pid, Process { cmd, ..old(self).procs()[pid] }),
    {
        let mut p = self.procs.remove(&pid).unwrap();
        p.cmd = cmd;
        self.procs.insert(pid, p);
        proof {
            let m0 = old(self).procs();
            let m = self.procs();
            assert(m =~= m0.insert(pid, Process { cmd, ..m0[pid] }));
            assert forall|q: usize| #[trigger] m.contains_key(q) implies m[q].children@ == m0[q].children@ && m[q].parent
                == m0[q].parent && m[q].zombie == m0[q].zombie && m[q].threads == m0[q].threads && m[q].tids == m0[q].tids
                && m[q].signals == m0[q].signals by {}
        }
    }

    /// The exit of the main thread of `pid` with `code`: the process
    /// becomes a zombie keeping `code`, its threads and open files are
    /// dropped, and its children are adopted by `init` (which has no parent),
    /// after the children `init` already has, in the same order.
    pub fn exit_main(&mut self, pid: usize, code: i32, init: usize)
        requires
            old(self).wf(),
            old(self).procs().contains_key(pid),
            old(self).procs().contains_key(init),
            old(self).procs()[init].parent is None,
            !old(self).procs()[init].zombie,
            pid != init,
        ensures
            final(self).wf(),
            final(self).pids() == old(self).pids(),
            final(self).procs().dom() == old(self).procs().dom(),
            ({
                let p0 = old(self).procs()[pid];
                let p = final(self).procs()[pid];
                &&& p.zombie
                &&& p.exit_code == code
                &&& p.children@ == Seq::<usize>::empty()
                &&& p.parent == p0.parent
                &&& forall|t: int| 0 <= t < p.threads@.len() ==> #[trigger] p.threads@[t] is None
                &&& p.fds.view() == Seq::<Option<FileHandle>>::empty()
            }),
            final(self).procs()[init].children@ == old(self).procs()[init].children@ + old(self).procs()[pid].children@,
            final(self).procs()[init] == (Process { children: final(self).procs()[init].children, ..old(self).procs()[init] }),
            forall|q: usize|
                #[trigger] old(self).procs().contains_key(q) && old(self).procs()[pid].children@.contains(q)
                    ==> final(self).procs()[q] == (Process { parent: Some(init), ..old(self).procs()[q] }),
            forall|q: usize|
                #[trigger] old(self).procs().contains_key(q) && q != pid && q != init
                    && !old(self).procs()[pid].children@.contains(q) ==> final(self).procs()[q] == old(self).procs()[q],
    {
        let ghost m0 = self.procs();
        let mut p = self.procs.remove(&pid).unwrap();
        let mut ip = self.procs.remove(&init).unwrap();
        let ghost ip0 = ip;
        let ghost p0 = p;
        let n = p.children.len();
        let mut k: usize = 0;
        proof {
            assert(!p0.children@.contains(init)) by {
                if p0.children@.contains(init) {
                    let i = choose|i: int| 0 <= i < p0.children@.len() && p0.children@[i] == init;
                    assert(m0[m0[pid].children@[i]].parent == Some(pid));
                }
            }
            assert(!p0.children@.contains(pid)) by {
                if p0.children@.contains(pid) {
                    let i = choose|i: int| 0 <= i < p0.children@.len() && p0.children@[i] == pid;
                    assert(m0[m0[pid].children@[i]].parent == Some(pid));
                    assert(m0[pid].parent == Some(pid));
                    assert(m0[pid].children@.contains(pid));
                }
            }
        }
        while k < n
            invariant
                n == p0.children@.len(),
                k <= n,
                p == p0,
                p0 == m0[pid],
                m0.contains_key(pid) && m0.contains_key(init),
                !p0.children@.contains(init),
                !p0.children@.contains(pid),
                p0.children@.no_duplicates(),
                forall|i: int| 0 <= i < n ==> m0.contains_key(#[trigger] p0.children@[i]),
                self.procs().dom() == m0.dom().remove(pid).remove(init),
                self.pids() == old(self).pids(),
                ip == (Process { children: ip.children, ..ip0 }),
                ip.children@ == ip0.children@ + p0.children@.take(k as int),
                forall|i: int| 0 <= i < k ==> #[trigger] self.procs()[p0.children@[i]] == (Process {
                    parent: Some(init),
                    ..m0[p0.children@[i]]
                }),
                forall|q: usize|
                    #[trigger] self.procs().contains_key(q) && !p0.children@.take(k as int).contains(q) ==> self.procs()[q]
                        == m0[q],
            decreases n - k,
        {
            let c = p.children[k];
            proof {
                assert(c == p0.children@[k as int]);
                assert(m0.contains_key(c));
                assert(c != pid && c != init);
                assert(!p0.children@.take(k as int).contains(c)) by {
                    if p0.children@.take(k as int).contains(c) {
                        let j = choose|j: int| 0 <= j < k && p0.children@.take(k as int)[j] == c;
                        assert(p0.children@[j] == p0.children@[k as int]);
                    }
                }
            }
            let mut cp = self.procs.remove(&c).unwrap();
            cp.parent = Some(init);
            self.procs.insert(c, cp);
            ip.children.push(c);
            proof {
                assert(p0.children@.take(k as int + 1) =~= p0.children@.take(k as int).push(c));
                assert(ip.children@ =~= ip0.children@ + p0.children@.take(k as int + 1));
                assert forall|q: usize|
                    #[trigger] self.procs().contains_key(q) && !p0.children@.take(k as int + 1).contains(q) implies self.procs()[q]
                    == m0[q] by {
                    assert(p0.children@.take(k as int + 1)[k as int] == c);
                    assert(q != c);
                    assert(!p0.children@.take(k as int).contains(q)) by {
                        if p0.children@.take(k as int).contains(q) {
                            let j = choose|j: int| 0 <= j < k && p0.children@.take(k as int)[j] == q;
                            assert(p0.children@.take(k as int + 1)[j] == q);
                        }
                    }
                }
                assert forall|i: int| 0 <= i < k + 1 implies #[trigger] self.procs()[p0.children@[i]] == (Process {
                    parent: Some(init),
                    ..m0[p0.children@[i]]
                }) by {
                    if i < k {
                        assert(p0.children@[i] != c);
                    }
                }
            }
            k = k + 1;
        }
        proof {
            assert(p0.children@.take(n as int) =~= p0.children@);
        }
        p.zombie = true;
        p.exit_code = code;
        p.children.clear();
        free_slots(&mut p.threads);
        p.fds.clear();
        self.procs.insert(pid, p);
        self.procs.insert(init, ip);
        proof {
            let m = self.procs();
            assert(m.dom() =~= m0.dom());
            assert forall|q: usize| #[trigger] m0.contains_key(q) && m0[pid].children@.contains(q) implies m[q].parent == Some(init)
                && m[q].children == m0[q].children by {
                let i = choose|i: int| 0 <= i < p0.children@.len() && p0.children@[i] == q;
                assert(m[p0.children@[i]] == (Process { parent: Some(init), ..m0[p0.children@[i]] }));
            }
            assert forall|q: usize| #[trigger] m0.contains_key(q) && q != pid && q != init && !m0[pid].children@.contains(q)
                implies m[q] == m0[q] by {
                assert(!p0.children@.take(n as int).contains(q));
            }
            lemma_exit_keeps_tree(m0, m, pid, init);
            assert forall|q: usize| #[trigger] m.contains_key(q) implies m[q].tids@.wf() && m[q].signals.model().wf() by {
                assert(old(self).procs().contains_key(q));
                if q != pid && q != init && !p0.children@.contains(q) {
                    assert(m[q] == m0[q]);
                }
                if p0.children@.contains(q) {
                    let i = choose|i: int| 0 <= i < p0.children@.len() && p0.children@[i] == q;
                    assert(m[p0.children@[i]] == (Process { parent: Some(init), ..m0[p0.children@[i]] }));
                }
            }
            assert forall|q: usize| #[trigger] m.contains_key(q) && m[q].zombie implies m[q].children@.len() == 0 by {
                assert(old(self).procs().contains_key(q));
                if q != pid && q != init && !p0.children@.contains(q) {
                    assert(m[q] == m0[q]);
                }
                if p0.children@.contains(q) {
                    let i = choose|i: int| 0 <= i < p0.children@.len() && p0.children@[i] == q;
                    assert(m[p0.children@[i]] == (Process { parent: Some(init), ..m0[p0.children@[i]] }));
                }
            }
            assert forall|q: usize|
                #[trigger] m0.contains_key(q) && m0[pid].children@.contains(q) implies m[q] == (Process {
                parent: Some(init),
                ..m0[q]
            }) by {
                let i = choose|i: int| 0 <= i < p0.children@.len() && p0.children@[i] == q;
                assert(m[p0.children@[i]] == (Process { parent: Some(init), ..m0[p0.children@[i]] }));
            }
        }
    }

    /// Reaps a child of `parent` for `waitpid`: `pid` -1 stands for any
    /// child. With no matching child: `ECHILD`. Else, when a matching child
    /// is a zombie, the first such in `parent`'s list leaves the list and the
    /// table, its identifier is given back, and its identifier and exit code
    /// are returned. Else: `EAGAIN`.
    pub fn waitpid(&mut self, parent: usize, pid: isize) -> (r: (isize, Option<i32>))
        requires
            old(self).wf(),
            old(self).procs().contains_key(parent),
        ensures
            final(self).wf(),
            ({
                let m0 = old(self).procs();
                let ch = m0[parent].children@;
                if !(exists|i: int| 0 <= i < ch.len() && #[trigger] matches_pid(pid, ch[i])) {
                    r == (ECHILD, None::<i32>) && final(self).procs() == m0 && final(self).pids() == old(self).pids()
                } else if !(exists|i: int| 0 <= i < ch.len() && #[trigger] reapable(m0, pid, ch[i])) {
                    r == (EAGAIN, None::<i32>) && final(self).procs() == m0 && final(self).pids() == old(self).pids()
                } else {
                    exists|i: int|
                        0 <= i < ch.len() && #[trigger] reapable(m0, pid, ch[i]) && (forall|j: int|
                            0 <= j < i ==> !#[trigger] reapable(m0, pid, ch[j])) && r == (ch[i] as isize, Some(m0[ch[i]].exit_code))
                            && final(self).procs().dom() == m0.dom().remove(ch[i])
                            && final(self).procs()[parent] == (Process {
                            children: final(self).procs()[parent].children,
                            ..m0[parent]
                        }) && final(self).procs()[parent].children@ == ch.remove(i) && (forall|q: usize|
                            #[trigger] final(self).procs().contains_key(q) && q != parent ==> final(self).procs()[q] == m0[q])
                            && final(self).pids() == old(self).pids().dealloc(ch[i])
                }
            }),
    {
        let ghost m0 = self.procs();
        let ghost ch = m0[parent].children@;
        let n = self.procs.get(&parent).unwrap().children.len();
        let mut any = false;
        let mut found: Option<usize> = None;
        let mut i: usize = 0;
        while i < n
            invariant
                m0 == self.procs(),
                self == old(self),
                old(self).wf(),
                m0.contains_key(parent),
                ch == m0[parent].children@,
                n == ch.len(),
                i <= n,
                any == exists|j: int| 0 <= j < i && #[trigger] matches_pid(pid, ch[j]),
                match found {
                    Some(k) => k < i && reapable(m0, pid, ch[k as int]) && forall|j: int| 0 <= j < k ==> !#[trigger] reapable(
                        m0,
                        pid,
                        ch[j],
                    ),
                    None => forall|j: int| 0 <= j < i ==> !#[trigger] reapable(m0, pid, ch[j]),
                },
            decreases n - i,
        {
            let c = self.procs.get(&parent).unwrap().children[i];
            proof {
                assert(c == ch[i as int]);
                assert(m0.contains_key(ch[i as int]));
            }
            let hit = pid == -1 || pid as usize == c;
            if hit {
                any = true;
                if found.is_none() && self.procs.get(&c).unwrap().zombie {
                    found = Some(i);
                }
            }
            proof {
                assert(hit == matches_pid(pid, ch[i as int]));
            }
            i = i + 1;
        }
        if !any {
            return (ECHILD, None);
        }
        match found {
            None => (EAGAIN, None),
            Some(k) => {
                let mut par = self.procs.remove(&parent).unwrap();
                let c = par.children.remove(k);
                self.procs.insert(parent, par);
                let child = self.procs.remove(&c).unwrap();
                proof {
                    assert(c == ch[k as int]);
                    assert(m0.contains_key(c) && m0[c].parent == Some(parent));
                    assert(c != parent);
                    assert(old(self).pids().is_live(c));
                    super::pid::lemma_dealloc_retires(old(self).pids(), c);
                }
                self.pids.dealloc(c);
                proof {
                    let m = self.procs();
                    lemma_reap_keeps_tree(m0, m, parent, c, k as int);
                    assert forall|q: usize| #[trigger] m.contains_key(q) implies m[q].tids@.wf() && m[q].signals.model().wf()
                        && (m[q].zombie ==> m[q].children@.len() == 0) by {
                        assert(old(self).procs().contains_key(q));
                    }
                }
                (c as isize, Some(child.exit_code))
            },
        }
    }

    /// Adds a live thread to the live process `pid`: it takes a thread
    /// identifier (a given-back one first) and the slot of that identifier.
    pub fn add_thread(&mut self, pid: usize) -> (tid: usize)
        requires
            old(self).wf(),
            old(self).procs().contains_key(pid),
            !old(self).procs()[pid].zombie,
            old(self).procs()[pid].tids@.can_allocate(),
        ensures
            final(self).wf(),
            final(self).pids() == old(self).pids(),
            final(self).procs().dom() == old(self).procs().dom(),
            forall|q: usize| q != pid && #[trigger] old(self).procs().contains_key(q) ==> final(self).procs()[q]
                == old(self).procs()[q],
            tid == old(self).procs()[pid].tids@.allocate().1,
            !old(self).procs()[pid].tids@.is_live(tid),
            tid <= old(self).procs()[pid].threads@.len(),
            final(self).procs()[pid].threads@ == (if tid == old(self).procs()[pid].threads@.len() {
                old(self).procs()[pid].threads@.push(Some(None))
            } else {
                old(self).procs()[pid].threads@.update(tid as int, Some(None))
            }),
            final(self).procs()[pid] == (Process {
                threads: final(self).procs()[pid].threads,
                tids: final(self).procs()[pid].tids,
                ..old(self).procs()[pid]
            }),
    {
        let ghost m0 = self.procs();
        let mut p = self.procs.remove(&pid).unwrap();
        let ghost p0 = p;
        proof {
            lemma_allocate_fresh(p.tids@);
        }
        let tid = p.tids.allocate();
        if tid == p.threads.len() {
            p.threads.push(Some(None));
        } else {
            p.threads.set(tid, Some(None));
        }
        self.procs.insert(pid, p);
        proof {
            let m = self.procs();
            assert(m.dom() =~= m0.dom());
            assert(p == (Process { threads: p.threads, tids: p.tids, ..p0 }));
            assert forall|t: int| 0 <= t < p.threads@.len() implies (#[trigger] p.threads@[t] is Some <==> p.tids@.is_live(
                t as usize,
            )) by {
                if t != tid {
                    assert(p.threads@[t] == p0.threads@[t]);
                }
            }
            assert(slots_ok(p));
            assert forall|q: usize| #[trigger] m.contains_key(q) implies m[q].children@.no_duplicates() && m[q].parent != Some(q)
                by {
                if q != pid {
                    assert(m[q] == m0[q]);
                }
            }
            assert forall|q: usize, i: int|
                m.contains_key(q) && 0 <= i < m[q].children@.len() implies m.contains_key(#[trigger] m[q].children@[i])
                && m[m[q].children@[i]].parent == Some(q) by {
                assert(m[q].children == m0[q].children);
                let c = m0[q].children@[i];
                assert(m0.contains_key(m0[q].children@[i]));
                assert(m[c].parent == m0[c].parent);
            }
            assert forall|q: usize| #[trigger] m.contains_key(q) && m[q].parent is Some implies m.contains_key(m[q].parent->0)
                && m[m[q].parent->0].children@.contains(q) by {
                assert(m[q].parent == m0[q].parent);
                let pp = m0[q].parent->0;
                assert(m0.contains_key(pp));
                assert(m[pp].children == m0[pp].children);
            }
            assert forall|q: usize| #[trigger] m.contains_key(q) implies m[q].tids@.wf() && m[q].signals.model().wf()
                && (m[q].zombie ==> m[q].children@.len() == 0) && (!m[q].zombie ==> slots_ok(m[q])) by {
                assert(old(self).procs().contains_key(q));
            }
        }
        tid
    }

    /// Records that the live thread `tid` of `pid` exited with `code`; its
    /// slot and identifier stay until it is waited for.
    pub fn exit_slave(&mut self, pid: usize, tid: usize, code: i32)
        requires
            old(self).wf(),
            old(self).procs().contains_key(pid),
            tid < old(self).procs()[pid].threads@.len(),
            old(self).procs()[pid].threads@[tid as int] is Some,
        ensures
            final(self).wf(),
            final(self).pids() == old(self).pids(),
            final(self).procs() == old(self).procs().insert(
                pid,
                Process { threads: final(self).procs()[pid].threads, ..old(self).procs()[pid] },
            ),
            final(self).procs()[pid].threads@ == old(self).procs()[pid].threads@.update(tid as int, Some(Some(code))),
    {
        let ghost m0 = self.procs();
        let mut p = self.procs.remove(&pid).unwrap();
        let ghost p0 = p;
        p.threads.set(tid, Some(Some(code)));
        self.procs.insert(pid, p);
        proof {
            assert(self.procs() =~= m0.insert(pid, self.procs()[pid]));
            self.lemma_threads_only(m0, pid, p0);
        }
    }

    /// Waits for thread `tid` of `pid` on behalf of thread `cur`: `EINVAL`
    /// when `tid` is `cur` or has no slot; its exit code when it exited, its
    /// slot and identifier then freed; else `EAGAIN`.
    pub fn waittid(&mut self, pid: usize, cur: usize, tid: usize) -> (r: isize)
        requires
            old(self).wf(),
            old(self).procs().contains_key(pid),
            !old(self).procs()[pid].zombie,
        ensures
            final(self).wf(),
            final(self).pids() == old(self).pids(),
            ({
                let th = old(self).procs()[pid].threads@;
                if tid == cur || tid >= th.len() || th[tid as int] is None {
                    r == EINVAL && final(self).procs() == old(self).procs()
                } else if th[tid as int] == Some(None::<i32>) {
                    r == EAGAIN && final(self).procs() == old(self).procs()
                } else {
                    r == th[tid as int]->0->0 as isize && final(self).procs() == old(self).procs().insert(
                        pid,
                        Process {
                            threads: final(self).procs()[pid].threads,
                            tids: final(self).procs()[pid].tids,
                            ..old(self).procs()[pid]
                        },
                    ) && final(self).procs()[pid].threads@ == th.update(tid as int, None)
                        && final(self).procs()[pid].tids@ == old(self).procs()[pid].tids@.dealloc(tid)
                }
            }),
    {
        let ghost m0 = self.procs();
        let slots = self.procs.get(&pid).unwrap().threads.len();
        if tid == cur || tid >= slots {
            return EINVAL;
        }
        let slot = self.procs.get(&pid).unwrap().threads[tid];
        match slot {
            None => EINVAL,
            Some(None) => EAGAIN,
            Some(Some(code)) => {
                let mut p = self.procs.remove(&pid).unwrap();
                let ghost p0 = p;
                proof {
                    assert(slots_ok(p0));
                    assert(p0.threads@[tid as int] is Some);
                    super::pid::lemma_dealloc_retires(p0.tids@, tid);
                }
                p.threads.set(tid, None);
                p.tids.dealloc(tid);
                self.procs.insert(pid, p);
                proof {
                    assert forall|t: int| 0 <= t < p.threads@.len() implies (#[trigger] p.threads@[t] is Some
                        <==> p.tids@.is_live(t as usize)) by {
                        if t != tid {
                            assert(p.threads@[t] == p0.threads@[t]);
                        }
                    }
                    assert(self.procs() =~= m0.insert(pid, self.procs()[pid]));
                    self.lemma_threads_only(m0, pid, p0);
                }
                code as isize
            },
        }
    }

    /// A change to the thread slots (and thread identifiers) of one process
    /// that keeps its slots consistent keeps the table well formed.
    proof fn lemma_threads_only(&self, m0: Map<usize, Process>, pid: usize, p0: Process)
        requires
            m0.contains_key(pid),
            m0[pid] == p0,
            tree_ok(m0),
            self.pids().wf(),
            forall|q: usize| #[trigger] m0.contains_key(q) <==> self.pids().is_live(q),
            forall|q: usize| #[trigger] m0.contains_key(q) ==> m0[q].tids@.wf() && m0[q].signals.model().wf()
                && (m0[q].zombie ==> m0[q].children@.len() == 0) && (!m0[q].zombie ==> slots_ok(m0[q])),
            self.procs() == m0.insert(pid, self.procs()[pid]),
            self.procs()[pid] == (Process {
                threads: self.procs()[pid].threads,
                tids: self.procs()[pid].tids,
                ..p0
            }),
            self.procs()[pid].tids@.wf(),
            !p0.zombie ==> slots_ok(self.procs()[pid]),
        ensures
            self.wf(),
    {
        let m = self.procs();
        assert(m.dom() =~= m0.dom());
        assert forall|q: usize| #[trigger] m.contains_key(q) implies m[q].children@.no_duplicates() && m[q].parent != Some(q) by {
            if q != pid {
                assert(m[q] == m0[q]);
            }
        }
        assert forall|q: usize, i: int|
            m.contains_key(q) && 0 <= i < m[q].children@.len() implies m.contains_key(#[trigger] m[q].children@[i])
            && m[m[q].children@[i]].parent == Some(q) by {
            assert(m[q].children == m0[q].children);
            let c = m0[q].children@[i];
            assert(m0.contains_key(m0[q].children@[i]));
            assert(m[c].parent == m0[c].parent);
        }
        assert forall|q: usize| #[trigger] m.contains_key(q) && m[q].parent is Some implies m.contains_key(m[q].parent->0)
            && m[m[q].parent->0].children@.contains(q) by {
            assert(m[q].parent == m0[q].parent);
            let pp = m0[q].parent->0;
            assert(m0.contains_key(pp));
            assert(m[pp].children == m0[pp].children);
        }
        assert forall|q: usize| #[trigger] m.contains_key(q) implies m[q].tids@.wf() && m[q].signals.model().wf()
            && (m[q].zombie ==> m[q].children@.len() == 0) && (!m[q].zombie ==> slots_ok(m[q])) by {
            assert(m0.contains_key(q));
        }
    }

    /// Sends signal number `signal` to process `pid`: `ESRCH` when there is
    /// no such process; else as `kill_signal` does to its signals.
    pub fn kill(&mut self, pid: usize, signal: i32) -> (r: isize)
        requires
            old(self).wf(),
            old(self).procs().contains_key(pid) ==> 0 <= signal < 32,
        ensures
            final(self).wf(),
            final(self).pids() == old(self).pids(),
            !old(self).procs().contains_key(pid) ==> r == syserr::ESRCH && final(self).procs() == old(self).procs(),
            old(self).procs().contains_key(pid) ==> {
                let s0 = old(self).procs()[pid].signals.model();
                let bit = sig_bit(signal as int);
                &&& final(self).procs() == old(self).procs().insert(
                    pid,
                    Process { signals: final(self).procs()[pid].signals, ..old(self).procs()[pid] },
                )
                &&& s0.pending & bit == bit ==> r == syserr::EINVAL && final(self).procs()[pid].signals.model() == s0
                &&& s0.pending & bit != bit ==> r == 0 && final(self).procs()[pid].signals.model() == (SignalModel {
                    pending: s0.pending | bit,
                    ..s0
                })
            },
    {
        if !self.procs.contains_key(&pid) {
            return syserr::ESRCH;
        }
        let ghost m0 = self.procs();
        let mut p = self.procs.remove(&pid).unwrap();
        let ghost p0 = p;
        let r = kill_signal(&mut p.signals, signal);
        self.procs.insert(pid, p);
        proof {
            assert(self.procs() =~= m0.insert(pid, self.procs()[pid]));
            let m = self.procs();
            assert(m.dom() =~= m0.dom());
            assert(p == (Process { signals: p.signals, ..p0 }));
            assert forall|q: usize| #[trigger] m.contains_key(q) implies m[q].children@.no_duplicates() && m[q].parent != Some(q)
                by {
                if q != pid {
                    assert(m[q] == m0[q]);
                }
            }
            assert forall|q: usize, i: int|
                m.contains_key(q) && 0 <= i < m[q].children@.len() implies m.contains_key(#[trigger] m[q].children@[i])
                && m[m[q].children@[i]].parent == Some(q) by {
                assert(m[q].children == m0[q].children);
                let c = m0[q].children@[i];
                assert(m0.contains_key(m0[q].children@[i]));
                assert(m[c].parent == m0[c].parent);
            }
            assert forall|q: usize| #[trigger] m.contains_key(q) && m[q].parent is Some implies m.contains_key(m[q].parent->0)
                && m[m[q].parent->0].children@.contains(q) by {
                assert(m[q].parent == m0[q].parent);
                let pp = m0[q].parent->0;
                assert(m0.contains_key(pp));
                assert(m[pp].children == m0[pp].children);
            }
            assert forall|q: usize| #[trigger] m.contains_key(q) implies m[q].tids@.wf() && m[q].signals.model().wf()
                && (m[q].zombie ==> m[q].children@.len() == 0) && (!m[q].zombie ==> slots_ok(m[q])) by {
                assert(m0.contains_key(q));
                if q == pid {
                    assert(slots_ok(p0) ==> slots_ok(p));
                }
            }
        }
        r
    }

    /// Marks `signal` pending for process `pid`, which must be in the table;
    /// nothing else of it changes.
    pub fn add_signal(&mut self, pid: usize, signal: SignalFlags)
        requires
            old(self).wf(),
            old(self).procs().contains_key(pid),
        ensures
            final(self).wf(),
            final(self).pids() == old(self).pids(),
            final(self).procs() == old(self).procs().insert(
                pid,
                Process { signals: final(self).procs()[pid].signals, ..old(self).procs()[pid] },
            ),
            final(self).procs()[pid].signals.model() == (SignalModel {
                pending: old(self).procs()[pid].signals.model().pending | signal@,
                ..old(self).procs()[pid].signals.model()
            }),
    {
        let ghost m0 = self.procs();
        let mut p = self.procs.remove(&pid).unwrap();
        add_signal(&mut p.signals, signal);
        proof {
            lemma_replace_keeps_wf(m0, pid, p);
        }
        self.procs.insert(pid, p);
        proof {
            assert(self.procs() =~= m0.insert(pid, p));
        }
    }

    /// Puts `signals` in place of the signal state of process `pid`, which
    /// must be in the table, and returns the state it had; nothing else
    /// changes.
    pub fn replace_signals(&mut self, pid: usize, signals: SignalState) -> (r: SignalState)
        requires
            old(self).wf(),
            old(self).procs().contains_key(pid),
            signals.model().wf(),
        ensures
            final(self).wf(),
            final(self).pids() == old(self).pids(),
            r == old(self).procs()[pid].signals,
            final(self).procs() == old(self).procs().insert(pid, Process { signals, ..old(self).procs()[pid] }),
    {
        let ghost m0 = self.procs();
        let mut p = self.procs.remove(&pid).unwrap();
        let mut r = signals;
        core::mem::swap(&mut p.signals, &mut r);
        proof {
            lemma_replace_keeps_wf(m0, pid, p);
        }
        self.procs.insert(pid, p);
        proof {
            assert(self.procs() =~= m0.insert(pid, p));
        }
        r
    }

    /// Puts `fds` in place of the descriptor table of process `pid`, which
    /// must be in the table, and returns the table it had; nothing else
    /// changes.
    pub fn replace_fd_table(&mut self, pid: usize, fds: FdTable<FileHandle>) -> (r: FdTable<FileHandle>)
        requires
            old(self).wf(),
            old(self).procs().contains_key(pid),
        ensures
            final(self).wf(),
            final(self).pids() == old(self).pids(),
            r == old(self).procs()[pid].fds,
            final(self).procs() == old(self).procs().insert(pid, Process { fds, ..old(self).procs()[pid] }),
    {
        let ghost m0 = self.procs();
        let mut p = self.procs.remove(&pid).unwrap();
        let mut r = fds;
        core::mem::swap(&mut p.fds, &mut r);
        proof {
            lemma_replace_keeps_wf(m0, pid, p);
        }
        self.procs.insert(pid, p);
        proof {
            assert(self.procs() =~= m0.insert(pid, p));
        }
        r
    }

    /// Process `pid`, if it is in the table.
    pub fn get(&self, pid: usize) -> (r: Option<&Process>)
        ensures
            match r {
                Some(p) => self.procs().contains_key(pid) && *p == self.procs()[pid],
                None => !self.procs().contains_key(pid),
            },
    {
        self.procs.get(&pid)
    }

    /// Whether process `pid` is in the table.
    pub fn contains(&self, pid: usize) -> (r: bool)
        ensures
            r == self.procs().contains_key(pid),
    {
        self.procs.contains_key(&pid)
    }
}

/// Changing only the signal state or the descriptors of a process keeps
/// the table well formed, when the new signal state is.
proof fn lemma_replace_keeps_wf(m0: Map<usize, Process>, pid: usize, p: Process)
    requires
        tree_ok(m0),
        m0.contains_key(pid),
        forall|q: usize| #[trigger] m0.contains_key(q) ==> m0[q].tids@.wf() && m0[q].signals.model().wf()
            && (m0[q].zombie ==> m0[q].children@.len() == 0) && (!m0[q].zombie ==> slots_ok(m0[q])),
        p.parent == m0[pid].parent,
        p.children == m0[pid].children,
        p.zombie == m0[pid].zombie,
        p.threads == m0[pid].threads,
        p.tids == m0[pid].tids,
        p.signals.model().wf(),
    ensures
        tree_ok(m0.insert(pid, p)),
        forall|q: usize| #[trigger] m0.insert(pid, p).contains_key(q) ==> m0.insert(pid, p)[q].tids@.wf()
            && m0.insert(pid, p)[q].signals.model().wf() && (m0.insert(pid, p)[q].zombie ==> m0.insert(pid, p)[q].children@.len()
            == 0) && (!m0.insert(pid, p)[q].zombie ==> slots_ok(m0.insert(pid, p)[q])),
{
    let m = m0.insert(pid, p);
    assert(m.dom() =~= m0.dom());
    assert forall|q: usize| #[trigger] m.contains_key(q) implies m[q].children@.no_duplicates() && m[q].parent != Some(q) by {
        if q != pid {
            assert(m[q] == m0[q]);
        }
    }
    assert forall|q: usize, i: int|
        m.contains_key(q) && 0 <= i < m[q].children@.len() implies m.contains_key(#[trigger] m[q].children@[i])
        && m[m[q].children@[i]].parent == Some(q) by {
        assert(m[q].children == m0[q].children);
        let c = m0[q].children@[i];
        assert(m0.contains_key(m0[q].children@[i]));
        assert(m[c].parent == m0[c].parent);
    }
    assert forall|q: usize| #[trigger] m.contains_key(q) && m[q].parent is Some implies m.contains_key(m[q].parent->0)
        && m[m[q].parent->0].children@.contains(q) by {
        assert(m[q].parent == m0[q].parent);
        let pp = m0[q].parent->0;
        assert(m0.contains_key(pp));
        assert(m[pp].children == m0[pp].children);
    }
    assert forall|q: usize| #[trigger] m.contains_key(q) implies m[q].tids@.wf() && m[q].signals.model().wf() && (m[q].zombie
        ==> m[q].children@.len() == 0) && (!m[q].zombie ==> slots_ok(m[q])) by {
        assert(m0.contains_key(q));
    }
}

/// What the exit of the main thread of `pid` with `code` makes of the
/// processes `m0`: `pid` becomes a zombie with that exit code, no child, no
/// live thread and no open file; its children, now listed after those of
/// `init`, name `init` as their parent; nothing else changes.
pub open spec fn main_exited(m0: Map<usize, Process>, m: Map<usize, Process>, pid: usize, code: i32, init: usize) -> bool {
    let p0 = m0[pid];
    let p = m[pid];
    &&& m.dom() == m0.dom()
    &&& p.zombie
    &&& p.exit_code == code
    &&& p.children@ == Seq::<usize>::empty()
    &&& p.parent == p0.parent
    &&& forall|t: int| 0 <= t < p.threads@.len() ==> #[trigger] p.threads@[t] is None
    &&& p.fds.view() == Seq::<Option<FileHandle>>::empty()
    &&& m[init].children@ == m0[init].children@ + p0.children@
    &&& m[init] == (Process { children: m[init].children, ..m0[init] })
    &&& forall|q: usize|
        #[trigger] m0.contains_key(q) && p0.children@.contains(q) ==> m[q] == (Process { parent: Some(init), ..m0[q] })
    &&& forall|q: usize|
        #[trigger] m0.contains_key(q) && q != pid && q != init && !p0.children@.contains(q) ==> m[q] == m0[q]
}

/// What the exit of thread `tid` of `pid` with `code` makes of the
/// processes `m0`: only that thread's slot changes, to hold the exit code.
pub open spec fn thread_exited(m0: Map<usize, Process>, m: Map<usize, Process>, pid: usize, tid: usize, code: i32) -> bool {
    &&& m == m0.insert(pid, Process { threads: m[pid].threads, ..m0[pid] })
    &&& m[pid].threads@ == m0[pid].threads@.update(tid as int, Some(Some(code)))
}

/// The exit of `pid` keeps the tree consistent: its children, now listed
/// after those of `init`, name `init` as their parent, and it lists none.
proof fn lemma_exit_keeps_tree(m0: Map<usize, Process>, m: Map<usize, Process>, pid: usize, init: usize)
    requires
        tree_ok(m0),
        m0.contains_key(pid),
        m0.contains_key(init),
        m0[init].parent is None,
        pid != init,
        m.dom() == m0.dom(),
        m[pid].children@ == Seq::<usize>::empty(),
        m[pid].parent == m0[pid].parent,
        m[init].children@ == m0[init].children@ + m0[pid].children@,
        m[init].parent == m0[init].parent,
        forall|q: usize|
            #[trigger] m0.contains_key(q) && m0[pid].children@.contains(q) ==> m[q].parent == Some(init) && m[q].children
                == m0[q].children,
        forall|q: usize|
            #[trigger] m0.contains_key(q) && q != pid && q != init && !m0[pid].children@.contains(q) ==> m[q] == m0[q],
    ensures
        tree_ok(m),
{
    let ch = m0[pid].children@;
    assert(!ch.contains(init)) by {
        if ch.contains(init) {
            let i = choose|i: int| 0 <= i < ch.len() && ch[i] == init;
            assert(m0[m0[pid].children@[i]].parent == Some(pid));
        }
    }
    assert(!ch.contains(pid)) by {
        if ch.contains(pid) {
            let i = choose|i: int| 0 <= i < ch.len() && ch[i] == pid;
            assert(m0[m0[pid].children@[i]].parent == Some(pid));
            assert(m0[pid].children@.contains(pid));
        }
    }
    assert forall|q: usize| #[trigger] m.contains_key(q) implies m[q].children@.no_duplicates() by {
        if q == init {
            let a = m0[init].children@;
            assert forall|i: int, j: int| 0 <= i < j < (a + ch).len() implies (a + ch)[i] != (a + ch)[j] by {
                if i < a.len() && j >= a.len() {
                    let x = a[i];
                    assert(m0[m0[init].children@[i]].parent == Some(init));
                    assert(m0[m0[pid].children@[j - a.len()]].parent == Some(pid));
                }
            }
        } else if q != pid && !ch.contains(q) {
            assert(m[q] == m0[q]);
        } else if ch.contains(q) {
            assert(m[q].children == m0[q].children);
        }
    }
    assert forall|q: usize, i: int|
        m.contains_key(q) && 0 <= i < m[q].children@.len() implies m.contains_key(#[trigger] m[q].children@[i])
        && m[m[q].children@[i]].parent == Some(q) by {
        if q == init {
            let a = m0[init].children@;
            if i < a.len() {
                let c = a[i];
                assert(m[init].children@[i] == c);
                assert(m0.contains_key(m0[init].children@[i]) && m0[m0[init].children@[i]].parent == Some(init));
                assert(!ch.contains(c)) by {
                    if ch.contains(c) {
                        let j = choose|j: int| 0 <= j < ch.len() && ch[j] == c;
                        assert(m0[m0[pid].children@[j]].parent == Some(pid));
                    }
                }
                assert(c != init) by {
                    if c == init {
                        assert(m0[init].parent == Some(init));
                    }
                }
                if c != pid {
                    assert(m[c] == m0[c]);
                }
            } else {
                let c = ch[i - a.len()];
                assert(m[init].children@[i] == c);
                assert(m0.contains_key(m0[pid].children@[i - a.len()]));
                assert(ch.contains(c));
            }
        } else if q == pid {
        } else if ch.contains(q) {
            let c = m0[q].children@[i];
            assert(m[q].children == m0[q].children);
            assert(m0.contains_key(m0[q].children@[i]) && m0[m0[q].children@[i]].parent == Some(q));
            assert(c != init);
            assert(!ch.contains(c)) by {
                if ch.contains(c) {
                    let j = choose|j: int| 0 <= j < ch.len() && ch[j] == c;
                    assert(m0[m0[pid].children@[j]].parent == Some(pid));
                }
            }
            if c != pid {
                assert(m[c] == m0[c]);
            }
        } else {
            assert(m[q] == m0[q]);
            let c = m0[q].children@[i];
            assert(m0.contains_key(m0[q].children@[i]) && m0[m0[q].children@[i]].parent == Some(q));
            assert(!ch.contains(c)) by {
                if ch.contains(c) {
                    let j = choose|j: int| 0 <= j < ch.len() && ch[j] == c;
                    assert(m0[m0[pid].children@[j]].parent == Some(pid));
                }
            }
            if c == pid {
                assert(m[pid].parent == m0[pid].parent);
            } else if c == init {
                assert(m0[init].parent == Some(q));
            } else {
                assert(m[c] == m0[c]);
            }
        }
    }
    assert forall|q: usize| #[trigger] m.contains_key(q) && m[q].parent is Some implies m.contains_key(m[q].parent->0)
        && m[m[q].parent->0].children@.contains(q) by {
        if ch.contains(q) {
            let j = choose|j: int| 0 <= j < ch.len() && ch[j] == q;
            assert(m[init].children@[m0[init].children@.len() + j] == q);
        } else if q == init {
        } else {
            assert(q == pid || m[q] == m0[q]);
            let pp = m0[q].parent->0;
            assert(m0.contains_key(pp) && m0[pp].children@.contains(q));
            let k = choose|k: int| 0 <= k < m0[pp].children@.len() && m0[pp].children@[k] == q;
            if pp == pid {
                assert(m0[m0[pid].children@[k]].parent == Some(pid));
                assert(ch.contains(q));
            } else if pp == init {
                assert(m[init].children@[k] == q);
            } else if ch.contains(pp) {
                assert(m[pp].children == m0[pp].children);
                assert(m[pp].children@[k] == q);
            } else {
                assert(m[pp] == m0[pp]);
            }
        }
    }
}

/// Frees every thread slot, keeping their number.
fn free_slots(slots: &mut Vec<Option<Option<i32>>>)
    ensures
        final(slots)@.len() == old(slots)@.len(),
        forall|t: int| 0 <= t < final(slots)@.len() ==> #[trigger] final(slots)@[t] is None,
{
    let mut t: usize = 0;
    while t < slots.len()
        invariant
            t <= slots@.len(),
            slots@.len() == old(slots)@.len(),
            forall|j: int| 0 <= j < t ==> #[trigger] slots@[j] is None,
        decreases slots@.len() - t,
    {
        slots.set(t, None);
        t = t + 1;
    }
}

/// Child `c` is what `waitpid` asked for: `pid` is -1 or names it.
pub open spec fn matches_pid(pid: isize, c: usize) -> bool {
    pid == -1 || pid as usize == c
}

/// Child `c` matches `pid` and is a zombie.
pub open spec fn reapable(m: Map<usize, Process>, pid: isize, c: usize) -> bool {
    matches_pid(pid, c) && m[c].zombie
}

/// Reaping the zombie child `c`, entry `k` of `parent`'s list, keeps the
/// tree consistent.
proof fn lemma_reap_keeps_tree(m0: Map<usize, Process>, m: Map<usize, Process>, parent: usize, c: usize, k: int)
    requires
        tree_ok(m0),
        m0.contains_key(parent),
        0 <= k < m0[parent].children@.len(),
        m0[parent].children@[k] == c,
        m0[c].children@.len() == 0,
        c != parent,
        m.dom() == m0.dom().remove(c),
        m[parent].children@ == m0[parent].children@.remove(k),
        m[parent].parent == m0[parent].parent,
        forall|q: usize| #[trigger] m.contains_key(q) && q != parent ==> m[q] == m0[q],
    ensures
        tree_ok(m),
{
    let ch0 = m0[parent].children@;
    let ch = m[parent].children@;
    assert forall|q: usize| #[trigger] m.contains_key(q) implies m[q].children@.no_duplicates() && m[q].parent != Some(q) by {
        if q == parent {
            assert forall|i: int, j: int| 0 <= i < j < ch.len() implies ch[i] != ch[j] by {
                let i0 = if i < k { i } else { i + 1 };
                let j0 = if j < k { j } else { j + 1 };
                assert(ch[i] == ch0[i0] && ch[j] == ch0[j0]);
            }
        }
    }
    assert forall|q: usize, i: int|
        m.contains_key(q) && 0 <= i < m[q].children@.len() implies m.contains_key(#[trigger] m[q].children@[i])
        && m[m[q].children@[i]].parent == Some(q) by {
        if q == parent {
            let i0 = if i < k { i } else { i + 1 };
            assert(ch[i] == ch0[i0]);
            assert(m0.contains_key(m0[parent].children@[i0]));
            assert(ch0[i0] != c) by {
                if ch0[i0] == c {
                    assert(i0 != k);
                }
            }
            if ch0[i0] != parent {
                assert(m[ch0[i0]] == m0[ch0[i0]]);
            }
        } else {
            assert(m[q] == m0[q]);
            let x = m0[q].children@[i];
            assert(m0.contains_key(m0[q].children@[i]) && m0[x].parent == Some(q));
            assert(x != c) by {
                if x == c {
                    assert(m0[c].parent == Some(parent));
                }
            }
            if x != parent {
                assert(m[x] == m0[x]);
            }
        }
    }
    assert forall|q: usize| #[trigger] m.contains_key(q) && m[q].parent is Some implies m.contains_key(m[q].parent->0)
        && m[m[q].parent->0].children@.contains(q) by {
        let pp = m0[q].parent->0;
        assert(q == parent || m[q] == m0[q]);
        assert(m0.contains_key(pp) && m0[pp].children@.contains(q));
        assert(pp != c) by {
            if pp == c {
                let j = choose|j: int| 0 <= j < m0[c].children@.len() && m0[c].children@[j] == q;
            }
        }
        let j = choose|j: int| 0 <= j < m0[pp].children@.len() && m0[pp].children@[j] == q;
        if pp == parent {
            assert(q != c);
            assert(j != k);
            let j1 = if j < k { j } else { j - 1 };
            assert(ch[j1] == q);
        } else {
            assert(m[pp] == m0[pp]);
        }
    }
}

/// The thread slots of a live process follow its thread identifiers: there
/// is a slot for every identifier handed out, and a slot is taken exactly
/// when its identifier is in use.
pub open spec fn slots_ok(p: Process) -> bool {
    &&& p.tids@.current == p.threads@.len()
    &&& forall|t: int| 0 <= t < p.threads@.len() ==> (#[trigger] p.threads@[t] is Some <==> p.tids@.is_live(t as usize))
}

/// Waiting for a zombie child by its identifier finds that child: in the
/// parent's list it is the first entry that `waitpid` can reap, so the call
/// returns its identifier and exit code.
pub proof fn lemma_waitpid_finds_zombie(m: Map<usize, Process>, parent: usize, c: usize)
    requires
        tree_ok(m),
        m.contains_key(parent),
        m[parent].children@.contains(c),
        m[c].zombie,
        c <= isize::MAX,
    ensures
        exists|i: int|
            0 <= i < m[parent].children@.len() && m[parent].children@[i] == c && #[trigger] reapable(
                m,
                c as isize,
                m[parent].children@[i],
            ) && forall|j: int| 0 <= j < i ==> !#[trigger] reapable(m, c as isize, m[parent].children@[j]),
{
    let ch = m[parent].children@;
    let i = choose|i: int| 0 <= i < ch.len() && ch[i] == c;
    assert((c as isize) as usize == c);
    assert(reapable(m, c as isize, ch[i]));
    assert forall|j: int| 0 <= j < i implies !#[trigger] reapable(m, c as isize, ch[j]) by {
        assert(ch[j] != ch[i]);
    }
}

/// A copy of the bytes `b`.
fn copy_bytes(b: &Vec<u8>) -> (r: Vec<u8>)
    ensures
        r@ == b@,
{
    let mut r: Vec<u8> = Vec::new();
    let mut i: usize = 0;
    while i < b.len()
        invariant
            i <= b.len(),
            r@ == b@.subrange(0, i as int),
        decreases b.len() - i,
    {
        r.push(b[i]);
        i = i + 1;
    }
    r
}

} // verus!
